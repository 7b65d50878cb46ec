//! Combining pin requirements that target the same flake input.
//!
//! Requirements are grouped by input name. Within a group the evaluator
//! settings must agree; package, wish-package, consumer-target and version
//! requirements are combined into one search.
use crate::config::{
    copy_opt, copy_strings, opt_text, ConfigView, ConstraintView, PinConfig,
    VersionConstraint, constraint_pairs, text_pairs,
};
use crate::error::{join2, join3, join4, join5, Error};
use crate::text::{texts, copy_string, join, join_strings, owned, text_eq, text_less, text_lt, lemma_text_lt_total,
    lemma_text_lt_asymmetric, lemma_text_lt_irreflexive};
use crate::textmap::{has_key, keys_increasing, lookup, store, TextMap, lemma_store_keeps_order};
use vstd::prelude::*;

verus! {

/// How `{:?}` renders a string: quoted, with special characters escaped.
pub uninterp spec fn debug_quoted(s: Seq<char>) -> Seq<char>;

/// Renders a string as `{:?}` does.
///
/// Calls `<str as core::fmt::Debug>::fmt` through `format!`. Claimed: the
/// result depends on the string alone; the escaping itself is not stated.
#[verifier::external_body]
fn debug_text(s: &str) -> (r: String)
    ensures
        r@ == debug_quoted(s@),
{
    format!("{s:?}")
}

/// A configuration value that must agree across merged requirements.
pub enum FieldValue<'a> {
    Text(&'a String),
    OptText(&'a Option<String>),
    List(&'a Vec<String>),
    Flag(bool),
}

/// The debug rendering of a list of strings: `["a", "b"]`.
pub open spec fn debug_list(items: Seq<Seq<char>>) -> Seq<char> {
    "["@ + join(quoted_all(items), ", "@) + "]"@
}

/// Every item rendered as `{:?}` renders a string.
pub open spec fn quoted_all(items: Seq<Seq<char>>) -> Seq<Seq<char>>
    decreases items.len(),
{
    if items.len() == 0 {
        seq![]
    } else {
        quoted_all(items.drop_last()).push(debug_quoted(items.last()))
    }
}

/// The debug rendering of an optional string.
pub open spec fn debug_opt(o: Option<Seq<char>>) -> Seq<char> {
    match o {
        Some(s) => "Some("@ + debug_quoted(s) + ")"@,
        None => "None"@,
    }
}

/// The debug rendering of a flag.
pub open spec fn debug_flag(b: bool) -> Seq<char> {
    if b { "true"@ } else { "false"@ }
}

/// The content of a field value.
pub enum FieldModel {
    Text(Seq<char>),
    OptText(Option<Seq<char>>),
    List(Seq<Seq<char>>),
    Flag(bool),
}

impl<'a> FieldValue<'a> {
    pub open spec fn model(&self) -> FieldModel {
        match self {
            FieldValue::Text(s) => FieldModel::Text(s@),
            FieldValue::OptText(o) => FieldModel::OptText(opt_text(**o)),
            FieldValue::List(v) => FieldModel::List(texts(v@)),
            FieldValue::Flag(b) => FieldModel::Flag(*b),
        }
    }
}

/// The debug rendering of a field value.
pub open spec fn debug_model(m: FieldModel) -> Seq<char> {
    match m {
        FieldModel::Text(s) => debug_quoted(s),
        FieldModel::OptText(o) => debug_opt(o),
        FieldModel::List(v) => debug_list(v),
        FieldModel::Flag(b) => debug_flag(b),
    }
}

/// Renders a list of strings for a diagnostic.
fn debug_strings(v: &Vec<String>) -> (r: String)
    ensures
        r@ == debug_list(texts(v@)),
{
    let mut rendered: Vec<String> = Vec::new();
    let mut i: usize = 0;
    while i < v.len()
        invariant
            i <= v@.len(),
            texts(rendered@) == quoted_all(texts(v@).subrange(0, i as int)),
        decreases v@.len() - i,
    {
        let ghost before = texts(rendered@);
        rendered.push(debug_text(v[i].as_str()));
        assert(texts(rendered@) =~= before.push(debug_quoted(v@[i as int]@)));
        assert(texts(v@).subrange(0, i + 1).drop_last() =~= texts(v@).subrange(0, i as int));
        i = i + 1;
    }
    assert(texts(v@).subrange(0, i as int) =~= texts(v@));
    let inner = join_strings(&rendered, ", ");
    join3("[", inner.as_str(), "]")
}

/// Renders a field value for a diagnostic.
fn debug_field(v: &FieldValue) -> (r: String)
    ensures
        r@ == debug_model(v.model()),
{
    match v {
        FieldValue::Text(s) => debug_text(s.as_str()),
        FieldValue::OptText(o) => match o {
            Some(s) => {
                let d = debug_text(s.as_str());
                join3("Some(", d.as_str(), ")")
            },
            None => owned("None"),
        },
        FieldValue::List(l) => debug_strings(l),
        FieldValue::Flag(b) => if *b { owned("true") } else { owned("false") },
    }
}

/// Two field values are equal.
fn field_eq(a: &FieldValue, b: &FieldValue) -> (r: bool)
    ensures
        r == (a.model() == b.model()),
{
    match (a, b) {
        (FieldValue::Text(x), FieldValue::Text(y)) => text_eq(x.as_str(), y.as_str()),
        (FieldValue::OptText(x), FieldValue::OptText(y)) => match (x, y) {
            (Some(p), Some(q)) => text_eq(p.as_str(), q.as_str()),
            (None, None) => true,
            _ => false,
        },
        (FieldValue::List(x), FieldValue::List(y)) => strings_eq(x, y),
        (FieldValue::Flag(x), FieldValue::Flag(y)) => *x == *y,
        _ => false,
    }
}

/// Two lists of strings hold the same texts.
pub fn strings_eq(x: &Vec<String>, y: &Vec<String>) -> (r: bool)
    ensures
        r == (texts(x@) == texts(y@)),
{
    if x.len() != y.len() {
        assert(texts(x@).len() != texts(y@).len());
        return false;
    }
    let mut i: usize = 0;
    while i < x.len()
        invariant
            x@.len() == y@.len(),
            i <= x@.len(),
            forall|j: int| 0 <= j < i ==> #[trigger] x@[j]@ == y@[j]@,
        decreases x@.len() - i,
    {
        if !text_eq(x[i].as_str(), y[i].as_str()) {
            assert(texts(x@)[i as int] != texts(y@)[i as int]);
            return false;
        }
        i = i + 1;
    }
    assert(texts(x@) =~= texts(y@));
    true
}

/// The reason given when a field differs between merged requirements.
pub open spec fn differs_reason(field: Seq<char>, expected: FieldModel, actual: FieldModel) -> Seq<char> {
    field + " differs ("@ + debug_model(expected) + " vs "@ + debug_model(actual) + ")"@
}

/// Requires a field to agree between the first requirement and another.
pub fn check_equal(input_name: &str, pins: &str, field: &str, expected: &FieldValue, actual: &FieldValue) -> (r: Result<(), Error>)
    ensures
        match r {
            Ok(()) => expected.model() == actual.model(),
            Err(e) => expected.model() != actual.model() && (e matches Error::PinMerge { input_name: i, pins: p, reason }
                && i@ == input_name@ && p@ == pins@ && reason@ == differs_reason(field@, expected.model(), actual.model())),
        },
{
    if field_eq(expected, actual) {
        Ok(())
    } else {
        let e = debug_field(expected);
        let a = debug_field(actual);
        let reason = join6_text(field, " differs (", e.as_str(), " vs ", a.as_str(), ")");
        Err(Error::PinMerge { input_name: owned(input_name), pins: owned(pins), reason })
    }
}

fn join6_text(a: &str, b: &str, c: &str, d: &str, e: &str, f: &str) -> (r: String)
    ensures
        r@ == a@ + b@ + c@ + d@ + e@ + f@,
{
    crate::error::join6(a, b, c, d, e, f)
}

/// One field comparison: its label and the two values.
pub struct FieldCheck {
    pub label: Seq<char>,
    pub expected: FieldModel,
    pub actual: FieldModel,
}

/// The fields that merged requirements must agree on, in the order they are
/// compared, with the first requirement's value and another's.
pub open spec fn field_checks(a: ConfigView, b: ConfigView) -> Seq<FieldCheck> {
    seq![
        FieldCheck { label: "flakeRef"@, expected: FieldModel::Text(a.flake_ref), actual: FieldModel::Text(b.flake_ref) },
        FieldCheck { label: "attrPrefix"@, expected: FieldModel::Text(a.attr_prefix), actual: FieldModel::Text(b.attr_prefix) },
        FieldCheck { label: "pythonPackages"@, expected: FieldModel::OptText(a.python_packages), actual: FieldModel::OptText(b.python_packages) },
        FieldCheck { label: "caches"@, expected: FieldModel::List(a.caches), actual: FieldModel::List(b.caches) },
        FieldCheck { label: "hydraJobset"@, expected: FieldModel::Text(a.hydra_jobset), actual: FieldModel::Text(b.hydra_jobset) },
        FieldCheck { label: "hydraUrl"@, expected: FieldModel::Text(a.hydra_url), actual: FieldModel::Text(b.hydra_url) },
        FieldCheck { label: "hydraJobPattern"@, expected: FieldModel::Text(a.hydra_job_pattern), actual: FieldModel::Text(b.hydra_job_pattern) },
        FieldCheck { label: "hydraRevInput"@, expected: FieldModel::Text(a.hydra_rev_input), actual: FieldModel::Text(b.hydra_rev_input) },
        FieldCheck { label: "branch"@, expected: FieldModel::Text(a.branch), actual: FieldModel::Text(b.branch) },
        FieldCheck { label: "flakeOutput"@, expected: FieldModel::Text(a.flake_output), actual: FieldModel::Text(b.flake_output) },
        FieldCheck { label: "consumerFlakeRef"@, expected: FieldModel::OptText(a.consumer_flake_ref), actual: FieldModel::OptText(b.consumer_flake_ref) },
        FieldCheck { label: "failFast"@, expected: FieldModel::Flag(a.fail_fast), actual: FieldModel::Flag(b.fail_fast) },
        FieldCheck { label: "arch"@, expected: FieldModel::Text(a.arch), actual: FieldModel::Text(b.arch) },
        FieldCheck { label: "lockOnly"@, expected: FieldModel::Flag(a.lock_only), actual: FieldModel::Flag(b.lock_only) },
        FieldCheck { label: "verifyClosure"@, expected: FieldModel::Flag(a.verify_closure), actual: FieldModel::Flag(b.verify_closure) },
    ]
}

/// The reason of the first disagreement among the checks, if any.
pub open spec fn first_difference(checks: Seq<FieldCheck>) -> Option<Seq<char>>
    decreases checks.len(),
{
    if checks.len() == 0 {
        None
    } else if checks[0].expected != checks[0].actual {
        Some(differs_reason(checks[0].label, checks[0].expected, checks[0].actual))
    } else {
        first_difference(checks.drop_first())
    }
}

/// Requires every shared setting of `cfg` to equal the first requirement's.
fn check_fields(input_name: &str, pins: &str, first: &PinConfig, cfg: &PinConfig) -> (r: Result<(), Error>)
    ensures
        match r {
            Ok(()) => first_difference(field_checks(first@, cfg@)) is None,
            Err(e) => first_difference(field_checks(first@, cfg@)) matches Some(reason) && (e matches Error::PinMerge { input_name: i, pins: p, reason: r }
                && i@ == input_name@ && p@ == pins@ && r@ == reason),
        },
{
    proof {
        reveal_strlit("flakeRef");
        reveal_strlit("attrPrefix");
        reveal_strlit("pythonPackages");
        reveal_strlit("caches");
        reveal_strlit("hydraJobset");
        reveal_strlit("hydraUrl");
        reveal_strlit("hydraJobPattern");
        reveal_strlit("hydraRevInput");
        reveal_strlit("branch");
        reveal_strlit("flakeOutput");
        reveal_strlit("consumerFlakeRef");
        reveal_strlit("failFast");
        reveal_strlit("arch");
        reveal_strlit("lockOnly");
        reveal_strlit("verifyClosure");
        reveal_with_fuel(first_difference, 16);
    }
    check_equal(input_name, pins, "flakeRef", &FieldValue::Text(&first.flake_ref), &FieldValue::Text(&cfg.flake_ref))?;
    check_equal(input_name, pins, "attrPrefix", &FieldValue::Text(&first.attr_prefix), &FieldValue::Text(&cfg.attr_prefix))?;
    check_equal(input_name, pins, "pythonPackages", &FieldValue::OptText(&first.python_packages), &FieldValue::OptText(&cfg.python_packages))?;
    check_equal(input_name, pins, "caches", &FieldValue::List(&first.caches), &FieldValue::List(&cfg.caches))?;
    check_equal(input_name, pins, "hydraJobset", &FieldValue::Text(&first.hydra_jobset), &FieldValue::Text(&cfg.hydra_jobset))?;
    check_equal(input_name, pins, "hydraUrl", &FieldValue::Text(&first.hydra_url), &FieldValue::Text(&cfg.hydra_url))?;
    check_equal(input_name, pins, "hydraJobPattern", &FieldValue::Text(&first.hydra_job_pattern), &FieldValue::Text(&cfg.hydra_job_pattern))?;
    check_equal(input_name, pins, "hydraRevInput", &FieldValue::Text(&first.hydra_rev_input), &FieldValue::Text(&cfg.hydra_rev_input))?;
    check_equal(input_name, pins, "branch", &FieldValue::Text(&first.branch), &FieldValue::Text(&cfg.branch))?;
    check_equal(input_name, pins, "flakeOutput", &FieldValue::Text(&first.flake_output), &FieldValue::Text(&cfg.flake_output))?;
    check_equal(input_name, pins, "consumerFlakeRef", &FieldValue::OptText(&first.consumer_flake_ref), &FieldValue::OptText(&cfg.consumer_flake_ref))?;
    check_equal(input_name, pins, "failFast", &FieldValue::Flag(first.fail_fast), &FieldValue::Flag(cfg.fail_fast))?;
    check_equal(input_name, pins, "arch", &FieldValue::Text(&first.arch), &FieldValue::Text(&cfg.arch))?;
    check_equal(input_name, pins, "lockOnly", &FieldValue::Flag(first.lock_only), &FieldValue::Flag(cfg.lock_only))?;
    check_equal(input_name, pins, "verifyClosure", &FieldValue::Flag(first.verify_closure), &FieldValue::Flag(cfg.verify_closure))?;
    Ok(())
}

/// Inserts texts one after the other into an ordered key sequence.
pub open spec fn insert_texts(acc: Seq<(Seq<char>, ())>, xs: Seq<Seq<char>>) -> Seq<(Seq<char>, ())>
    decreases xs.len(),
{
    if xs.len() == 0 {
        acc
    } else {
        insert_texts(store(acc, xs[0], ()), xs.drop_first())
    }
}

/// The distinct texts of `xs` in increasing text order.
pub open spec fn sorted_distinct(xs: Seq<Seq<char>>) -> Seq<Seq<char>> {
    insert_texts(Seq::empty(), xs).map_values(|e: (Seq<char>, ())| e.0)
}

proof fn lemma_insert_texts(acc: Seq<(Seq<char>, ())>, xs: Seq<Seq<char>>)
    requires
        keys_increasing(acc),
    ensures
        keys_increasing(insert_texts(acc, xs)),
        forall|k: Seq<char>| has_key(insert_texts(acc, xs), k) <==> (has_key(acc, k) || xs.contains(k)),
    decreases xs.len(),
{
    if xs.len() > 0 {
        let next = store(acc, xs[0], ());
        lemma_store_keeps_order(acc, xs[0], ());
        crate::textmap::lemma_store_contains(acc, xs[0], ());
        lemma_insert_texts(next, xs.drop_first());
        assert forall|k: Seq<char>| has_key(insert_texts(acc, xs), k) <==> (has_key(acc, k) || xs.contains(k)) by {
            if has_key(next, k) {
                let j = choose|j: int| 0 <= j < next.len() && next[j].0 == k;
                if next[j].0 != xs[0] {
                    let m = choose|m: int| 0 <= m < acc.len() && acc[m].0 == next[j].0;
                    assert(acc[m].0 == k);
                }
            }
            if has_key(acc, k) {
                let m = choose|m: int| 0 <= m < acc.len() && acc[m].0 == k;
                assert(has_key(next, acc[m].0));
                assert(has_key(insert_texts(acc, xs), k));
            }
            if xs.contains(k) {
                let i = choose|i: int| 0 <= i < xs.len() && xs[i] == k;
                if i > 0 {
                    assert(xs.drop_first()[i - 1] == k);
                } else {
                    assert(has_key(next, xs[0]));
                }
            }
            if xs.drop_first().contains(k) {
                let i = choose|i: int| 0 <= i < xs.drop_first().len() && xs.drop_first()[i] == k;
                assert(xs[i + 1] == k);
            }
        }
    }
}

/// The distinct texts of a list come out in strictly increasing order, and a
/// text comes out exactly when the list holds it.
pub proof fn lemma_sorted_distinct(xs: Seq<Seq<char>>)
    ensures
        forall|i: int, j: int| 0 <= i < j < sorted_distinct(xs).len() ==> text_lt(#[trigger] sorted_distinct(xs)[i], #[trigger] sorted_distinct(xs)[j]),
        forall|k: Seq<char>| sorted_distinct(xs).contains(k) <==> xs.contains(k),
{
    let e = insert_texts(Seq::empty(), xs);
    lemma_insert_texts(Seq::empty(), xs);
    let r = sorted_distinct(xs);
    assert forall|i: int, j: int| 0 <= i < j < r.len() implies text_lt(#[trigger] r[i], #[trigger] r[j]) by {
        assert(r[i] == e[i].0 && r[j] == e[j].0);
    }
    assert forall|k: Seq<char>| r.contains(k) <==> xs.contains(k) by {
        if r.contains(k) {
            let i = choose|i: int| 0 <= i < r.len() && r[i] == k;
            assert(e[i].0 == k);
            assert(has_key(e, k));
        }
        if xs.contains(k) {
            assert(has_key(e, k));
            let j = choose|j: int| 0 <= j < e.len() && e[j].0 == k;
            assert(r[j] == k);
        }
    }
}

/// The distinct texts of `xs`, each where it first occurs.
pub open spec fn first_occurrences(xs: Seq<Seq<char>>) -> Seq<Seq<char>>
    decreases xs.len(),
{
    if xs.len() == 0 {
        seq![]
    } else {
        let prev = first_occurrences(xs.drop_last());
        if prev.contains(xs.last()) {
            prev
        } else {
            prev.push(xs.last())
        }
    }
}

/// Each text occurs once among the first occurrences, which hold exactly
/// the texts of the list; a text that occurs before another in the list
/// (at its first occurrence) comes first there too.
pub proof fn lemma_first_occurrences(xs: Seq<Seq<char>>)
    ensures
        first_occurrences(xs).no_duplicates(),
        forall|x: Seq<char>| first_occurrences(xs).contains(x) <==> xs.contains(x),
        forall|i: int, j: int| 0 <= i < j < xs.len() && !xs.subrange(0, i).contains(xs[i]) && !xs.subrange(0, j).contains(xs[j])
            ==> first_occurrences(xs).index_of(#[trigger] xs[i]) < first_occurrences(xs).index_of(#[trigger] xs[j]),
    decreases xs.len(),
{
    if xs.len() > 0 {
        let front = xs.drop_last();
        let prev = first_occurrences(front);
        lemma_first_occurrences(front);
        let r = first_occurrences(xs);
        assert forall|x: Seq<char>| r.contains(x) <==> xs.contains(x) by {
            if xs.contains(x) && x != xs.last() {
                let k = choose|k: int| 0 <= k < xs.len() && xs[k] == x;
                assert(front[k] == x);
            }
            if front.contains(x) {
                let k = choose|k: int| 0 <= k < front.len() && front[k] == x;
                assert(xs[k] == x);
            }
            if !prev.contains(xs.last()) && r.contains(x) && x != xs.last() {
                let k = choose|k: int| 0 <= k < r.len() && r[k] == x;
                assert(prev[k] == x);
            }
            if !prev.contains(xs.last()) && x == xs.last() {
                assert(r[prev.len() as int] == x);
            }
            if !prev.contains(xs.last()) && prev.contains(x) {
                let k = choose|k: int| 0 <= k < prev.len() && prev[k] == x;
                assert(r[k] == x);
            }
            assert(xs[xs.len() - 1] == xs.last());
        }
        if !prev.contains(xs.last()) {
            assert forall|a: int, b: int| 0 <= a < r.len() && 0 <= b < r.len() && a != b implies r[a] != r[b] by {
                if a < prev.len() && b < prev.len() {
                    assert(r[a] == prev[a] && r[b] == prev[b]);
                } else if a < prev.len() {
                    assert(r[a] == prev[a]);
                } else if b < prev.len() {
                    assert(r[b] == prev[b]);
                }
            }
        }
        assert forall|i: int, j: int| 0 <= i < j < xs.len() && !xs.subrange(0, i).contains(xs[i]) && !xs.subrange(0, j).contains(xs[j])
            implies r.index_of(#[trigger] xs[i]) < r.index_of(#[trigger] xs[j]) by {
            assert(xs.subrange(0, i) =~= front.subrange(0, i));
            assert(front[i] == xs[i]);
            assert(front.contains(xs[i]));
            assert(prev.contains(xs[i]));
            let pi = prev.index_of(xs[i]);
            if j < xs.len() - 1 {
                assert(xs.subrange(0, j) =~= front.subrange(0, j));
                assert(front[j] == xs[j]);
                assert(prev.index_of(xs[i]) < prev.index_of(xs[j]));
                assert(front.contains(xs[j]));
                let pj = prev.index_of(xs[j]);
                if !prev.contains(xs.last()) {
                    assert(r[pi] == xs[i]);
                    assert(r[pj] == xs[j]);
                    assert(r.index_of(xs[i]) == pi);
                    assert(r.index_of(xs[j]) == pj);
                }
            } else {
                assert(!front.contains(xs[j])) by {
                    assert(xs.subrange(0, j) =~= front);
                }
                assert(!prev.contains(xs.last()));
                assert(r[pi] == xs[i]);
                assert(r.index_of(xs[i]) == pi);
                assert(r[prev.len() as int] == xs[j]);
                assert(r.index_of(xs[j]) == prev.len());
            }
        }
    }
}

/// The distinct strings of `values`, in the order they first occur.
pub fn distinct_in_order(values: Vec<String>) -> (r: Vec<String>)
    ensures
        texts(r@) == first_occurrences(texts(values@)),
{
    let ghost xs = texts(values@);
    let mut out: Vec<String> = Vec::new();
    let mut i: usize = 0;
    while i < values.len()
        invariant
            i <= values@.len(),
            xs == texts(values@),
            texts(out@) == first_occurrences(xs.subrange(0, i as int)),
        decreases values@.len() - i,
    {
        assert(xs.subrange(0, i + 1).drop_last() =~= xs.subrange(0, i as int));
        assert(xs.subrange(0, i + 1).last() == values@[i as int]@);
        if !holds_text(&out, values[i].as_str()) {
            let ghost before = texts(out@);
            out.push(copy_string(&values[i]));
            assert(texts(out@) =~= before.push(values@[i as int]@));
        }
        i = i + 1;
    }
    assert(xs.subrange(0, i as int) =~= xs);
    out
}

/// The distinct strings of `values` in increasing order.
pub fn stable_union(values: Vec<String>) -> (r: Vec<String>)
    ensures
        texts(r@) == sorted_distinct(texts(values@)),
{
    let mut set: TextMap<()> = TextMap::new();
    let ghost xs = texts(values@);
    let mut i: usize = 0;
    assert(xs.subrange(0, xs.len() as int) =~= xs);
    while i < values.len()
        invariant
            i <= values@.len(),
            xs == texts(values@),
            insert_texts(Seq::empty(), xs) == insert_texts(set@, xs.subrange(i as int, xs.len() as int)),
        decreases values@.len() - i,
    {
        let ghost rest = xs.subrange(i as int, xs.len() as int);
        assert(rest[0] == values@[i as int]@);
        assert(rest.drop_first() =~= xs.subrange(i + 1, xs.len() as int));
        set.insert(copy_string(&values[i]), ());
        i = i + 1;
    }
    assert(xs.subrange(i as int, xs.len() as int) =~= Seq::<Seq<char>>::empty());
    let mut out: Vec<String> = Vec::new();
    let mut j: usize = 0;
    while j < set.len()
        invariant
            j <= set@.len(),
            out@.len() == j,
            forall|k: int| 0 <= k < j ==> #[trigger] out@[k]@ == set@[k].0,
        decreases set@.len() - j,
    {
        out.push(copy_string(set.key_at(j)));
        j = j + 1;
    }
    assert(texts(out@) =~= set@.map_values(|e: (Seq<char>, ())| e.0));
    out
}

/// Adds entries one after the other to an ordered entry sequence; a key
/// already present with a different value is a conflict, reported by key.
pub open spec fn merge_entries<W>(acc: Seq<(Seq<char>, W)>, pairs: Seq<(Seq<char>, W)>) -> Result<Seq<(Seq<char>, W)>, Seq<char>>
    decreases pairs.len(),
{
    if pairs.len() == 0 {
        Ok(acc)
    } else {
        match lookup(acc, pairs[0].0) {
            Some(p) => if p != pairs[0].1 {
                Err(pairs[0].0)
            } else {
                merge_entries(store(acc, pairs[0].0, pairs[0].1), pairs.drop_first())
            },
            None => merge_entries(store(acc, pairs[0].0, pairs[0].1), pairs.drop_first()),
        }
    }
}

/// Merges the entry sequences of several requirements in order.
pub open spec fn merge_all<W>(acc: Seq<(Seq<char>, W)>, maps: Seq<Seq<(Seq<char>, W)>>) -> Result<Seq<(Seq<char>, W)>, Seq<char>>
    decreases maps.len(),
{
    if maps.len() == 0 {
        Ok(acc)
    } else {
        match merge_entries(acc, maps[0]) {
            Err(k) => Err(k),
            Ok(a) => merge_all(a, maps.drop_first()),
        }
    }
}

/// Some entry of `pairs` is `(k, w)`.
pub open spec fn in_pairs<W>(pairs: Seq<(Seq<char>, W)>, k: Seq<char>, w: W) -> bool {
    exists|j: int| 0 <= j < pairs.len() && #[trigger] pairs[j] == (k, w)
}

/// Some entry of some sequence of `maps` is `(k, w)`.
pub open spec fn in_maps<W>(maps: Seq<Seq<(Seq<char>, W)>>, k: Seq<char>, w: W) -> bool {
    exists|i: int| 0 <= i < maps.len() && #[trigger] in_pairs(maps[i], k, w)
}

/// The entry sequence holds `w` under `k`.
pub open spec fn holds<W>(r: Seq<(Seq<char>, W)>, k: Seq<char>, w: W) -> bool {
    lookup(r, k) == Some(w)
}

/// Adding `pairs` to `acc` gives `k` two different values.
pub open spec fn entry_conflict<W>(acc: Seq<(Seq<char>, W)>, pairs: Seq<(Seq<char>, W)>, k: Seq<char>) -> bool {
    exists|w1: W, w2: W| #![trigger in_pairs(pairs, k, w1), in_pairs(pairs, k, w2)] #![trigger holds(acc, k, w1), in_pairs(pairs, k, w2)]
        w1 != w2 && (holds(acc, k, w1) || in_pairs(pairs, k, w1)) && in_pairs(pairs, k, w2)
}

/// Adding `maps` to `acc` gives `k` two different values.
pub open spec fn map_conflict<W>(acc: Seq<(Seq<char>, W)>, maps: Seq<Seq<(Seq<char>, W)>>, k: Seq<char>) -> bool {
    exists|w1: W, w2: W| #![trigger in_maps(maps, k, w1), in_maps(maps, k, w2)] #![trigger holds(acc, k, w1), in_maps(maps, k, w2)]
        w1 != w2 && (holds(acc, k, w1) || in_maps(maps, k, w1)) && in_maps(maps, k, w2)
}

proof fn lemma_merge_entries<W>(acc: Seq<(Seq<char>, W)>, pairs: Seq<(Seq<char>, W)>)
    requires
        keys_increasing(acc),
    ensures
        match merge_entries(acc, pairs) {
            Ok(r) => keys_increasing(r) && forall|k: Seq<char>, w: W| #[trigger] holds(r, k, w)
                <==> (holds(acc, k, w) || in_pairs(pairs, k, w)),
            Err(k) => entry_conflict(acc, pairs, k),
        },
    decreases pairs.len(),
{
    if pairs.len() > 0 {
        let (k0, v0) = pairs[0];
        let rest = pairs.drop_first();
        assert(in_pairs(pairs, k0, v0)) by {
            assert(pairs[0] == (k0, v0));
        }
        assert forall|k: Seq<char>, w: W| in_pairs(rest, k, w) implies in_pairs(pairs, k, w) by {
            let j = choose|j: int| 0 <= j < rest.len() && #[trigger] rest[j] == (k, w);
            assert(pairs[j + 1] == (k, w));
        }
        assert forall|k: Seq<char>, w: W| in_pairs(pairs, k, w) && (k, w) != (k0, v0) implies in_pairs(rest, k, w) by {
            let j = choose|j: int| 0 <= j < pairs.len() && #[trigger] pairs[j] == (k, w);
            assert(j != 0);
            assert(rest[j - 1] == (k, w));
        }
        let conflict = match lookup(acc, k0) {
            Some(p) => p != v0,
            None => false,
        };
        if conflict {
            let p = lookup(acc, k0)->0;
            assert(holds(acc, k0, p));
            assert(merge_entries(acc, pairs) == Err::<Seq<(Seq<char>, W)>, Seq<char>>(k0));
            assert(p != v0 && (holds(acc, k0, p) || in_pairs(pairs, k0, p)) && in_pairs(pairs, k0, v0));
            assert(entry_conflict(acc, pairs, k0));
        } else {
            let next = store(acc, k0, v0);
            lemma_store_keeps_order(acc, k0, v0);
            crate::textmap::lemma_lookup_store(acc, k0, v0);
            lemma_merge_entries(next, rest);
            assert(merge_entries(acc, pairs) == merge_entries(next, rest));
            match merge_entries(next, rest) {
                Ok(r) => {
                    assert forall|k: Seq<char>, w: W| #[trigger] holds(r, k, w)
                        <==> (holds(acc, k, w) || in_pairs(pairs, k, w)) by {
                        if k == k0 {
                            if holds(acc, k, w) {
                                assert(w == v0);
                            }
                            if in_pairs(pairs, k, w) && w != v0 {
                                assert(in_pairs(rest, k, w));
                            }
                        } else {
                            assert(lookup(next, k) == lookup(acc, k));
                            if in_pairs(pairs, k, w) {
                                assert(in_pairs(rest, k, w));
                            }
                        }
                    }
                },
                Err(k) => {
                    assert(merge_entries(next, rest) is Err);
                    assert(entry_conflict(next, rest, k));
                    let (w1, w2) = choose|w1: W, w2: W| #![trigger in_pairs(rest, k, w1), in_pairs(rest, k, w2)] #![trigger holds(next, k, w1), in_pairs(rest, k, w2)]
                        w1 != w2 && (holds(next, k, w1) || in_pairs(rest, k, w1)) && in_pairs(rest, k, w2);
                    if holds(next, k, w1) {
                        if k == k0 {
                            assert(w1 == v0);
                        } else {
                            assert(lookup(next, k) == lookup(acc, k));
                            assert(holds(acc, k, w1));
                        }
                    }
                    let j2 = choose|j: int| 0 <= j < rest.len() && #[trigger] rest[j] == (k, w2);
                    assert(pairs[j2 + 1] == (k, w2));
                    if in_pairs(rest, k, w1) {
                        let j1 = choose|j: int| 0 <= j < rest.len() && #[trigger] rest[j] == (k, w1);
                        assert(pairs[j1 + 1] == (k, w1));
                    }
                    assert(in_pairs(pairs, k, w2));
                    assert(holds(acc, k, w1) || in_pairs(pairs, k, w1));
                    assert(entry_conflict(acc, pairs, k));
                },
            }
        }
    }
}

proof fn lemma_merge_all<W>(acc: Seq<(Seq<char>, W)>, maps: Seq<Seq<(Seq<char>, W)>>)
    requires
        keys_increasing(acc),
    ensures
        match merge_all(acc, maps) {
            Ok(r) => forall|k: Seq<char>, w: W| #[trigger] holds(r, k, w)
                <==> (holds(acc, k, w) || in_maps(maps, k, w)),
            Err(k) => map_conflict(acc, maps, k),
        },
    decreases maps.len(),
{
    if maps.len() > 0 {
        let rest = maps.drop_first();
        assert forall|k: Seq<char>, w: W| #[trigger] in_maps(maps, k, w) <==> (in_pairs(maps[0], k, w) || in_maps(rest, k, w)) by {
            if in_maps(maps, k, w) {
                let i = choose|i: int| 0 <= i < maps.len() && #[trigger] in_pairs(maps[i], k, w);
                if i > 0 {
                    assert(rest[i - 1] == maps[i]);
                }
            }
            if in_maps(rest, k, w) {
                let i = choose|i: int| 0 <= i < rest.len() && #[trigger] in_pairs(rest[i], k, w);
                assert(maps[i + 1] == rest[i]);
            }
        }
        lemma_merge_entries(acc, maps[0]);
        match merge_entries(acc, maps[0]) {
            Err(k) => {
                let m0 = maps[0];
                assert(entry_conflict(acc, m0, k));
                let (w1, w2) = choose|w1: W, w2: W| #![trigger in_pairs(m0, k, w1), in_pairs(m0, k, w2)] #![trigger holds(acc, k, w1), in_pairs(m0, k, w2)]
                    w1 != w2 && (holds(acc, k, w1) || in_pairs(m0, k, w1)) && in_pairs(m0, k, w2);
                assert(in_pairs(maps[0], k, w2));
                assert(in_maps(maps, k, w2));
                if in_pairs(m0, k, w1) {
                    assert(in_pairs(maps[0], k, w1));
                    assert(in_maps(maps, k, w1));
                }
                assert(holds(acc, k, w1) || in_maps(maps, k, w1));
                assert(map_conflict(acc, maps, k));
            },
            Ok(a) => {
                lemma_merge_all(a, rest);
                match merge_all(a, rest) {
                    Ok(r) => {
                        assert forall|k: Seq<char>, w: W| #[trigger] holds(r, k, w)
                            <==> (holds(acc, k, w) || in_maps(maps, k, w)) by {
                            assert(holds(a, k, w) <==> (holds(acc, k, w) || in_pairs(maps[0], k, w)));
                            assert(in_maps(maps, k, w) <==> (in_pairs(maps[0], k, w) || in_maps(rest, k, w)));
                        }
                    },
                    Err(k) => {
                        assert(map_conflict(a, rest, k));
                        let (w1, w2) = choose|w1: W, w2: W| #![trigger in_maps(rest, k, w1), in_maps(rest, k, w2)] #![trigger holds(a, k, w1), in_maps(rest, k, w2)]
                            w1 != w2 && (holds(a, k, w1) || in_maps(rest, k, w1)) && in_maps(rest, k, w2);
                        assert(in_maps(maps, k, w2));
                        assert(holds(a, k, w1) <==> (holds(acc, k, w1) || in_pairs(maps[0], k, w1)));
                        assert(holds(acc, k, w1) || in_maps(maps, k, w1));
                        assert(map_conflict(acc, maps, k));
                    },
                }
            },
        }
    }
}

/// Combining entry maps: the merge succeeds exactly when no key is given
/// two different values, and then it holds exactly the entries of the maps;
/// a failure names a key that is given two different values. (This is how
/// requirements for one input combine their consumer targets and their
/// version gates.)
pub proof fn lemma_merge_union<W>(maps: Seq<Seq<(Seq<char>, W)>>)
    ensures
        (merge_all(Seq::empty(), maps) is Ok) <==> forall|k: Seq<char>, w1: W, w2: W|
            #[trigger] in_maps(maps, k, w1) && #[trigger] in_maps(maps, k, w2) ==> w1 == w2,
        merge_all(Seq::empty(), maps) matches Ok(r) ==> forall|k: Seq<char>, w: W| #[trigger] holds(r, k, w)
            <==> in_maps(maps, k, w),
        merge_all(Seq::empty(), maps) matches Err(k) ==> exists|w1: W, w2: W| w1 != w2
            && #[trigger] in_maps(maps, k, w1) && #[trigger] in_maps(maps, k, w2),
{
    let empty = Seq::<(Seq<char>, W)>::empty();
    lemma_merge_all(empty, maps);
    match merge_all(empty, maps) {
        Ok(r) => {
            assert forall|k: Seq<char>, w1: W, w2: W| #[trigger] in_maps(maps, k, w1) && #[trigger] in_maps(maps, k, w2) implies w1 == w2 by {
                assert(holds(r, k, w1));
                assert(holds(r, k, w2));
            }
            assert forall|k: Seq<char>, w: W| #[trigger] holds(r, k, w) <==> in_maps(maps, k, w) by {
                assert(!holds(empty, k, w));
            }
        },
        Err(k) => {
            assert(map_conflict(empty, maps, k));
            let (w1, w2) = choose|w1: W, w2: W| #![trigger in_maps(maps, k, w1), in_maps(maps, k, w2)] #![trigger holds(empty, k, w1), in_maps(maps, k, w2)]
                w1 != w2 && (holds(empty, k, w1) || in_maps(maps, k, w1)) && in_maps(maps, k, w2);
            assert(!holds(empty, k, w1));
            assert(in_maps(maps, k, w1));
        },
    }
}

/// The consumer targets of the requirements, in order.
pub open spec fn target_maps(ms: Seq<ConfigView>) -> Seq<Seq<(Seq<char>, Seq<char>)>> {
    ms.map_values(|c: ConfigView| c.consumer_targets)
}

/// The version gates of the requirements, in order.
pub open spec fn constraint_maps(ms: Seq<ConfigView>) -> Seq<Seq<(Seq<char>, ConstraintView)>> {
    ms.map_values(|c: ConfigView| c.version_constraints)
}

/// The views of a list of configurations.
pub open spec fn config_views(v: Seq<PinConfig>) -> Seq<ConfigView> {
    v.map_values(|c: PinConfig| c@)
}

/// Combines the consumer targets of all requirements, or names the package
/// whose targets disagree.
fn merge_targets(members: &Vec<PinConfig>) -> (r: Result<TextMap<String>, String>)
    ensures
        match r {
            Ok(m) => merge_all(Seq::empty(), target_maps(config_views(members@))) == Ok::<Seq<(Seq<char>, Seq<char>)>, Seq<char>>(text_pairs(m@)),
            Err(conflict) => merge_all(Seq::empty(), target_maps(config_views(members@))) == Err::<Seq<(Seq<char>, Seq<char>)>, Seq<char>>(conflict@),
        },
{
    let ghost maps = target_maps(config_views(members@));
    let mut acc: TextMap<String> = TextMap::new();
    assert(text_pairs(acc@) =~= Seq::<(Seq<char>, Seq<char>)>::empty());
    let mut i: usize = 0;
    assert(maps.subrange(0, maps.len() as int) =~= maps);
    while i < members.len()
        invariant
            i <= members@.len(),
            maps == target_maps(config_views(members@)),
            merge_all(Seq::empty(), maps) == merge_all(text_pairs(acc@), maps.subrange(i as int, maps.len() as int)),
        decreases members@.len() - i,
    {
        let cfg = &members[i];
        assert(maps.len() == members@.len());
        let ghost rest = maps.subrange(i as int, maps.len() as int);
        let ghost pairs = text_pairs(cfg.consumer_targets@);
        assert(rest[0] == pairs);
        assert(rest.drop_first() =~= maps.subrange(i + 1, maps.len() as int));
        let ghost start = text_pairs(acc@);
        let mut k: usize = 0;
        assert(pairs.subrange(0, pairs.len() as int) =~= pairs);
        while k < cfg.consumer_targets.len()
            invariant
                k <= cfg.consumer_targets@.len(),
                pairs == text_pairs(cfg.consumer_targets@),
                merge_all(Seq::empty(), maps) == merge_all(start, rest),
                maps == target_maps(config_views(members@)),
                rest == maps.subrange(i as int, maps.len() as int),
                i < maps.len(),
                rest.len() > 0,
                rest[0] == pairs,
                merge_entries(start, pairs) == merge_entries(text_pairs(acc@), pairs.subrange(k as int, pairs.len() as int)),
            decreases cfg.consumer_targets@.len() - k,
        {
            let key = cfg.consumer_targets.key_at(k);
            let value = cfg.consumer_targets.value_at(k);
            let ghost tail = pairs.subrange(k as int, pairs.len() as int);
            assert(tail[0] == (key@, value@));
            assert(tail.drop_first() =~= pairs.subrange(k + 1, pairs.len() as int));
            let ghost before = acc@;
            let stored = copy_string(value);
            let ghost stored_ghost = stored;
            let previous = acc.insert(copy_string(key), stored);
            proof {
                crate::textmap::lemma_map_vals(before, key@, stored_ghost, crate::config::string_view());
            }
            assert(text_pairs(acc@) == store(text_pairs(before), key@, value@));
            assert(lookup(text_pairs(before), key@) == match lookup(before, key@) {
                Some(x) => Some(x@),
                None => None::<Seq<char>>,
            });
            if let Some(p) = previous {
                if !text_eq(p.as_str(), value.as_str()) {
                    assert(merge_entries(text_pairs(before), tail) == Err::<Seq<(Seq<char>, Seq<char>)>, Seq<char>>(key@));
                    assert(merge_all(start, rest) == Err::<Seq<(Seq<char>, Seq<char>)>, Seq<char>>(key@));
                    return Err(copy_string(key));
                }
            }
            k = k + 1;
        }
        assert(pairs.subrange(k as int, pairs.len() as int) =~= Seq::<(Seq<char>, Seq<char>)>::empty());
        i = i + 1;
    }
    assert(maps.subrange(i as int, maps.len() as int) =~= Seq::<Seq<(Seq<char>, Seq<char>)>>::empty());
    Ok(acc)
}

/// Combines the version gates of all requirements, or names the package
/// whose gates disagree.
fn merge_constraints(members: &Vec<PinConfig>) -> (r: Result<TextMap<VersionConstraint>, String>)
    ensures
        match r {
            Ok(m) => merge_all(Seq::empty(), constraint_maps(config_views(members@))) == Ok::<Seq<(Seq<char>, ConstraintView)>, Seq<char>>(constraint_pairs(m@)),
            Err(conflict) => merge_all(Seq::empty(), constraint_maps(config_views(members@))) == Err::<Seq<(Seq<char>, ConstraintView)>, Seq<char>>(conflict@),
        },
{
    let ghost maps = constraint_maps(config_views(members@));
    let mut acc: TextMap<VersionConstraint> = TextMap::new();
    assert(constraint_pairs(acc@) =~= Seq::<(Seq<char>, ConstraintView)>::empty());
    let mut i: usize = 0;
    assert(maps.subrange(0, maps.len() as int) =~= maps);
    while i < members.len()
        invariant
            i <= members@.len(),
            maps == constraint_maps(config_views(members@)),
            merge_all(Seq::empty(), maps) == merge_all(constraint_pairs(acc@), maps.subrange(i as int, maps.len() as int)),
        decreases members@.len() - i,
    {
        let cfg = &members[i];
        assert(maps.len() == members@.len());
        let ghost rest = maps.subrange(i as int, maps.len() as int);
        let ghost pairs = constraint_pairs(cfg.version_constraints@);
        assert(rest[0] == pairs);
        assert(rest.drop_first() =~= maps.subrange(i + 1, maps.len() as int));
        let ghost start = constraint_pairs(acc@);
        let mut k: usize = 0;
        assert(pairs.subrange(0, pairs.len() as int) =~= pairs);
        while k < cfg.version_constraints.len()
            invariant
                k <= cfg.version_constraints@.len(),
                pairs == constraint_pairs(cfg.version_constraints@),
                maps == constraint_maps(config_views(members@)),
                merge_all(Seq::empty(), maps) == merge_all(start, rest),
                rest == maps.subrange(i as int, maps.len() as int),
                i < maps.len(),
                rest.len() > 0,
                rest[0] == pairs,
                merge_entries(start, pairs) == merge_entries(constraint_pairs(acc@), pairs.subrange(k as int, pairs.len() as int)),
            decreases cfg.version_constraints@.len() - k,
        {
            let key = cfg.version_constraints.key_at(k);
            let value = cfg.version_constraints.value_at(k);
            let ghost tail = pairs.subrange(k as int, pairs.len() as int);
            assert(tail[0] == (key@, value@));
            assert(tail.drop_first() =~= pairs.subrange(k + 1, pairs.len() as int));
            let ghost before = acc@;
            let stored = value.duplicate();
            let ghost stored_ghost = stored;
            let previous = acc.insert(copy_string(key), stored);
            proof {
                crate::textmap::lemma_map_vals(before, key@, stored_ghost, crate::config::constraint_view());
            }
            assert(constraint_pairs(acc@) == store(constraint_pairs(before), key@, value@));
            assert(lookup(constraint_pairs(before), key@) == match lookup(before, key@) {
                Some(x) => Some(x@),
                None => None::<ConstraintView>,
            });
            if let Some(p) = previous {
                if !constraint_eq(&p, value) {
                    assert(merge_entries(constraint_pairs(before), tail) == Err::<Seq<(Seq<char>, ConstraintView)>, Seq<char>>(key@));
                    assert(merge_all(start, rest) == Err::<Seq<(Seq<char>, ConstraintView)>, Seq<char>>(key@));
                    return Err(copy_string(key));
                }
            }
            k = k + 1;
        }
        assert(pairs.subrange(k as int, pairs.len() as int) =~= Seq::<(Seq<char>, ConstraintView)>::empty());
        i = i + 1;
    }
    assert(maps.subrange(i as int, maps.len() as int) =~= Seq::<Seq<(Seq<char>, ConstraintView)>>::empty());
    Ok(acc)
}

/// Two version gates say the same.
fn constraint_eq(a: &VersionConstraint, b: &VersionConstraint) -> (r: bool)
    ensures
        r == (a@ == b@),
{
    let same_target = match (&a.target, &b.target) {
        (Some(x), Some(y)) => text_eq(x.as_str(), y.as_str()),
        (None, None) => true,
        _ => false,
    };
    same_target && strings_eq(&a.taints, &b.taints) && text_eq(a.version_attr.as_str(), b.version_attr.as_str())
}

/// `c` placed into a list ordered by name: after every entry whose name is
/// not greater, so equal names keep their order.
pub open spec fn insert_by_name(sorted: Seq<ConfigView>, c: ConfigView) -> Seq<ConfigView>
    decreases sorted.len(),
{
    if sorted.len() == 0 {
        seq![c]
    } else if text_lt(c.name, sorted.last().name) {
        insert_by_name(sorted.drop_last(), c).push(sorted.last())
    } else {
        sorted.push(c)
    }
}

/// The requirements ordered by name, equal names in their given order.
pub open spec fn sort_by_name(ms: Seq<ConfigView>) -> Seq<ConfigView>
    decreases ms.len(),
{
    if ms.len() == 0 {
        seq![]
    } else {
        insert_by_name(sort_by_name(ms.drop_last()), ms.last())
    }
}

proof fn lemma_insert_by_name(s: Seq<ConfigView>, c: ConfigView, j: int)
    requires
        0 <= j <= s.len(),
        forall|k: int| j <= k < s.len() ==> text_lt(c.name, #[trigger] s[k].name),
        j > 0 ==> !text_lt(c.name, s[j - 1].name),
    ensures
        insert_by_name(s, c) == s.subrange(0, j).push(c) + s.subrange(j, s.len() as int),
    decreases s.len(),
{
    if s.len() == 0 {
        assert(s.subrange(0, j).push(c) + s.subrange(j, s.len() as int) =~= seq![c]);
    } else if j == s.len() {
        assert(s.subrange(0, j).push(c) + s.subrange(j, s.len() as int) =~= s.push(c));
    } else {
        let t = s.drop_last();
        assert forall|k: int| j <= k < t.len() implies text_lt(c.name, #[trigger] t[k].name) by {
            assert(t[k] == s[k]);
        }
        lemma_insert_by_name(t, c, j);
        assert(s.subrange(0, j).push(c) + s.subrange(j, s.len() as int) =~= (t.subrange(0, j).push(c) + t.subrange(j, t.len() as int)).push(s.last()));
    }
}

/// Orders requirements by name; requirements with equal names keep their
/// relative order.
fn sort_members_by_name(members: Vec<PinConfig>) -> (r: Vec<PinConfig>)
    ensures
        config_views(r@) == sort_by_name(config_views(members@)),
{
    let ghost all = config_views(members@);
    let mut rest = members;
    let mut sorted: Vec<PinConfig> = Vec::new();
    let ghost mut taken: int = 0;
    assert(all.subrange(0, 0) =~= Seq::<ConfigView>::empty());
    assert(config_views(rest@) =~= all.subrange(0, all.len() as int));
    while rest.len() > 0
        invariant
            0 <= taken <= all.len(),
            config_views(rest@) == all.subrange(taken, all.len() as int),
            config_views(sorted@) == sort_by_name(all.subrange(0, taken)),
        decreases rest@.len(),
    {
        let ghost old_rest = rest@;
        assert(config_views(old_rest).len() > 0);
        assert(taken < all.len());
        assert(config_views(old_rest)[0] == old_rest[0]@);
        let c = rest.remove(0);
        assert(rest@ =~= old_rest.subrange(1, old_rest.len() as int));
        assert(config_views(rest@) =~= config_views(old_rest).subrange(1, old_rest.len() as int));
        assert(c@ == all[taken]);
        let ghost before = config_views(sorted@);
        let mut j: usize = sorted.len();
        while j > 0 && text_less(c.name.as_str(), sorted[j - 1].name.as_str())
            invariant
                j <= sorted@.len(),
                before == config_views(sorted@),
                forall|k: int| j <= k < sorted@.len() ==> text_lt(c.name@, #[trigger] before[k].name),
            decreases j,
        {
            assert(before[j - 1] == sorted@[j - 1]@);
            j = j - 1;
        }
        proof {
            if j > 0 {
                assert(before[j - 1] == sorted@[j - 1]@);
            }
            lemma_insert_by_name(before, c@, j as int);
            assert(all.subrange(0, taken + 1).drop_last() =~= all.subrange(0, taken));
            assert(all.subrange(0, taken + 1).last() == c@);
        }
        sorted.insert(j, c);
        assert(config_views(sorted@) =~= before.subrange(0, j as int).push(c@) + before.subrange(j as int, before.len() as int));
        proof {
            taken = taken + 1;
        }
        assert(config_views(rest@) =~= all.subrange(taken, all.len() as int));
    }
    assert(all.subrange(0, taken) =~= all);
    sorted
}

/// The largest of the requirements' search depths.
pub open spec fn max_depth(ms: Seq<ConfigView>) -> nat
    decreases ms.len(),
{
    if ms.len() == 0 {
        0
    } else if ms.len() == 1 {
        ms[0].depth
    } else {
        let d = max_depth(ms.drop_last());
        if ms.last().depth > d { ms.last().depth } else { d }
    }
}

/// Which list of a requirement to gather.
#[derive(Debug)]
pub enum ListKind {
    BranchFallbacks,
    Packages,
    WishPackages,
}

/// One list of a requirement.
pub open spec fn list_of(c: ConfigView, which: ListKind) -> Seq<Seq<char>> {
    match which {
        ListKind::BranchFallbacks => c.branch_fallbacks,
        ListKind::Packages => c.packages,
        ListKind::WishPackages => c.wish_packages,
    }
}

/// One list of every requirement, concatenated in order.
pub open spec fn gathered(ms: Seq<ConfigView>, which: ListKind) -> Seq<Seq<char>>
    decreases ms.len(),
{
    if ms.len() == 0 {
        seq![]
    } else {
        gathered(ms.drop_last(), which) + list_of(ms.last(), which)
    }
}

/// The items of `xs` not in `excluded`, in order.
pub open spec fn without(xs: Seq<Seq<char>>, excluded: Seq<Seq<char>>) -> Seq<Seq<char>>
    decreases xs.len(),
{
    if xs.len() == 0 {
        seq![]
    } else if excluded.contains(xs.last()) {
        without(xs.drop_last(), excluded)
    } else {
        without(xs.drop_last(), excluded).push(xs.last())
    }
}

/// Gathers one list of every requirement.
fn gather(members: &Vec<PinConfig>, which: &ListKind) -> (r: Vec<String>)
    ensures
        texts(r@) == gathered(config_views(members@), *which),
{
    let mut out: Vec<String> = Vec::new();
    let mut i: usize = 0;
    let ghost ms = config_views(members@);
    while i < members.len()
        invariant
            i <= members@.len(),
            ms == config_views(members@),
            texts(out@) == gathered(ms.subrange(0, i as int), *which),
        decreases members@.len() - i,
    {
        let list = match which {
            ListKind::BranchFallbacks => &members[i].branch_fallbacks,
            ListKind::Packages => &members[i].packages,
            ListKind::WishPackages => &members[i].wish_packages,
        };
        assert(texts(list@) == list_of(ms[i as int], *which));
        let ghost start = texts(out@);
        let mut k: usize = 0;
        while k < list.len()
            invariant
                k <= list@.len(),
                texts(out@) == start + texts(list@).subrange(0, k as int),
            decreases list@.len() - k,
        {
            let ghost prev = out@;
            out.push(copy_string(&list[k]));
            assert(texts(out@) =~= texts(prev).push(list@[k as int]@));
            assert(texts(list@).subrange(0, k + 1) =~= texts(list@).subrange(0, k as int).push(list@[k as int]@));
            assert(texts(out@) =~= start + texts(list@).subrange(0, k + 1));
            k = k + 1;
        }
        assert(texts(list@).subrange(0, k as int) =~= texts(list@));
        assert(ms.subrange(0, i + 1).drop_last() =~= ms.subrange(0, i as int));
        i = i + 1;
    }
    assert(ms.subrange(0, i as int) =~= ms);
    out
}

/// The list holds a string with the given text.
pub fn holds_text(list: &Vec<String>, s: &str) -> (r: bool)
    ensures
        r == texts(list@).contains(s@),
{
    let mut i: usize = 0;
    while i < list.len()
        invariant
            i <= list@.len(),
            forall|j: int| 0 <= j < i ==> #[trigger] list@[j]@ != s@,
        decreases list@.len() - i,
    {
        if text_eq(list[i].as_str(), s) {
            assert(texts(list@)[i as int] == s@);
            return true;
        }
        i = i + 1;
    }
    assert forall|j: int| 0 <= j < texts(list@).len() implies texts(list@)[j] != s@ by {
        assert(texts(list@)[j] == list@[j]@);
    }
    false
}

/// The strings of `xs` that `excluded` does not hold.
fn keep_absent(xs: Vec<String>, excluded: &Vec<String>) -> (r: Vec<String>)
    ensures
        texts(r@) == without(texts(xs@), texts(excluded@)),
{
    let mut out: Vec<String> = Vec::new();
    let mut i: usize = 0;
    let ghost all = texts(xs@);
    while i < xs.len()
        invariant
            i <= xs@.len(),
            all == texts(xs@),
            texts(out@) == without(all.subrange(0, i as int), texts(excluded@)),
        decreases xs@.len() - i,
    {
        assert(all.subrange(0, i + 1).drop_last() =~= all.subrange(0, i as int));
        assert(all.subrange(0, i + 1).last() == xs@[i as int]@);
        if !holds_text(excluded, xs[i].as_str()) {
            let ghost before = texts(out@);
            out.push(copy_string(&xs[i]));
            assert(texts(out@) =~= before.push(xs@[i as int]@));
        }
        i = i + 1;
    }
    assert(all.subrange(0, i as int) =~= all);
    out
}

/// The names of the requirements, in order.
pub open spec fn member_names(ms: Seq<ConfigView>) -> Seq<Seq<char>> {
    ms.map_values(|c: ConfigView| c.name)
}

/// How merging a group of requirements turns out.
pub enum MergeOutcome {
    /// The combined requirement.
    Merged(ConfigView),
    /// There was nothing to merge.
    Empty,
    /// The requirements disagree, for this reason.
    Conflict(Seq<char>),
}

/// The first setting on which a later requirement disagrees with the first.
pub open spec fn first_member_difference(first: ConfigView, rest: Seq<ConfigView>) -> Option<Seq<char>>
    decreases rest.len(),
{
    if rest.len() == 0 {
        None
    } else {
        match first_difference(field_checks(first, rest[0])) {
            Some(reason) => Some(reason),
            None => first_member_difference(first, rest.drop_first()),
        }
    }
}

/// The outcome of merging the requirements `ms` for one flake input.
pub open spec fn spec_merge_group(input: Seq<char>, ms: Seq<ConfigView>) -> MergeOutcome {
    if ms.len() == 0 {
        MergeOutcome::Empty
    } else {
        let first = ms[0];
        match first_member_difference(first, ms.drop_first()) {
            Some(reason) => MergeOutcome::Conflict(reason),
            None => match merge_all(Seq::empty(), target_maps(ms)) {
                Err(pkg) => MergeOutcome::Conflict("consumer target for "@ + pkg + " differs"@),
                Ok(targets) => match merge_all(Seq::empty(), constraint_maps(ms)) {
                    Err(pkg) => MergeOutcome::Conflict("version constraint for "@ + pkg + " differs"@),
                    Ok(constraints) => {
                        let packages = sorted_distinct(gathered(ms, ListKind::Packages));
                        MergeOutcome::Merged(ConfigView {
                            name: input + "["@ + join(member_names(ms), ", "@) + "]"@,
                            depth: max_depth(ms),
                            branch_fallbacks: first_occurrences(gathered(ms, ListKind::BranchFallbacks)),
                            packages: packages,
                            wish_packages: sorted_distinct(without(gathered(ms, ListKind::WishPackages), packages)),
                            consumer_targets: targets,
                            version_constraints: constraints,
                            ..first
                        })
                    },
                },
            },
        }
    }
}

/// Requirements for one flake input, and the single requirement they
/// combine into.
#[derive(Debug)]
pub struct PinGroup {
    pub input_name: String,
    /// The requirements, ordered by name.
    pub members: Vec<PinConfig>,
    pub merged: PinConfig,
}

/// The error a merge outcome is reported with.
pub open spec fn reports(e: Error, input: Seq<char>, ms: Seq<ConfigView>, outcome: MergeOutcome) -> bool {
    match outcome {
        MergeOutcome::Merged(_) => false,
        MergeOutcome::Empty => e matches Error::Config(m) && m@ == "cannot merge an empty pin group"@,
        MergeOutcome::Conflict(reason) => e matches Error::PinMerge { input_name, pins, reason: r }
            && input_name@ == input && pins@ == join(member_names(ms), ", "@) && r@ == reason,
    }
}

/// Combines the requirements for one flake input. Their shared settings must
/// agree; packages, wish packages, consumer targets and version gates are
/// combined.
pub fn merge_group(input_name: String, members: Vec<PinConfig>) -> (r: Result<PinGroup, Error>)
    ensures
        match r {
            Ok(g) => g.input_name@ == input_name@ && config_views(g.members@) == config_views(members@)
                && spec_merge_group(input_name@, config_views(members@)) == MergeOutcome::Merged(g.merged@),
            Err(e) => reports(e, input_name@, config_views(members@), spec_merge_group(input_name@, config_views(members@))),
        },
        ({
            let ms = config_views(members@);
            &&& ms.len() > 0 ==> ((r is Err) == some_members_disagree(ms))
            &&& r matches Ok(g) ==> {
                &&& forall|k: Seq<char>, w: Seq<char>| #[trigger] holds(g.merged@.consumer_targets, k, w) == in_maps(target_maps(ms), k, w)
                &&& forall|k: Seq<char>, w: ConstraintView| #[trigger] holds(g.merged@.version_constraints, k, w)
                    == in_maps(constraint_maps(ms), k, w)
            }
            &&& ms.len() > 0 && settings_agree(ms) && targets_clash(ms) ==> (r matches Err(Error::PinMerge { input_name: i, pins, reason })
                && i@ == input_name@ && pins@ == join(member_names(ms), ", "@) && exists|k: Seq<char>, w1: Seq<char>, w2: Seq<char>|
                w1 != w2 && #[trigger] in_maps(target_maps(ms), k, w1) && #[trigger] in_maps(target_maps(ms), k, w2)
                && reason@ == "consumer target for "@ + k + " differs"@)
            &&& ms.len() > 0 && settings_agree(ms) && !targets_clash(ms) && constraints_clash(ms) ==> (r matches Err(
                Error::PinMerge { input_name: i, pins, reason },
            ) && i@ == input_name@ && pins@ == join(member_names(ms), ", "@) && exists|k: Seq<char>, w1: ConstraintView, w2: ConstraintView|
                w1 != w2 && #[trigger] in_maps(constraint_maps(ms), k, w1) && #[trigger] in_maps(constraint_maps(ms), k, w2)
                && reason@ == "version constraint for "@ + k + " differs"@)
        }),
{
    let ghost ms = config_views(members@);
    proof {
        if ms.len() > 0 {
            lemma_merge_group_conflicts(input_name@, ms);
        }
    }
    let mut names: Vec<String> = Vec::new();
    let mut i: usize = 0;
    while i < members.len()
        invariant
            i <= members@.len(),
            ms == config_views(members@),
            texts(names@) == member_names(ms).subrange(0, i as int),
        decreases members@.len() - i,
    {
        let ghost prev = names@;
        names.push(copy_string(&members[i].name));
        assert(texts(names@) =~= texts(prev).push(members@[i as int].name@));
        assert(member_names(ms)[i as int] == members@[i as int].name@);
        assert(texts(names@) =~= member_names(ms).subrange(0, i + 1));
        i = i + 1;
    }
    assert(texts(names@) =~= member_names(ms));
    let pins = join_strings(&names, ", ");
    if members.len() == 0 {
        return Err(Error::Config(owned("cannot merge an empty pin group")));
    }
    let mut j: usize = 1;
    assert(ms.drop_first().subrange(0, ms.len() - 1) =~= ms.drop_first());
    while j < members.len()
        invariant
            1 <= j <= members@.len(),
            ms == config_views(members@),
            pins@ == join(member_names(ms), ", "@),
            first_member_difference(ms[0], ms.drop_first()) == first_member_difference(ms[0], ms.subrange(j as int, ms.len() as int)),
        decreases members@.len() - j,
    {
        let ghost rest = ms.subrange(j as int, ms.len() as int);
        assert(rest[0] == members@[j as int]@);
        assert(rest.drop_first() =~= ms.subrange(j + 1, ms.len() as int));
        match check_fields(input_name.as_str(), pins.as_str(), &members[0], &members[j]) {
            Ok(()) => {},
            Err(e) => {
                assert(ms[0] == members@[0]@);
                assert(first_member_difference(ms[0], rest) == first_difference(field_checks(ms[0], rest[0])));
                proof {
                    lemma_same_settings(ms[0], ms[j as int]);
                    assert(!same_settings(ms[0], ms[j as int]));
                }
                return Err(e);
            },
        }
        j = j + 1;
    }
    assert(ms.subrange(j as int, ms.len() as int) =~= Seq::<ConfigView>::empty());
    let targets = match merge_targets(&members) {
        Ok(t) => t,
        Err(pkg) => {
            let reason = join3("consumer target for ", pkg.as_str(), " differs");
            return Err(Error::PinMerge { input_name, pins, reason });
        },
    };
    let constraints = match merge_constraints(&members) {
        Ok(c) => c,
        Err(pkg) => {
            let reason = join3("version constraint for ", pkg.as_str(), " differs");
            return Err(Error::PinMerge { input_name, pins, reason });
        },
    };
    let mut merged = members[0].duplicate();
    merged.name = join4(input_name.as_str(), "[", pins.as_str(), "]");
    let mut depth: usize = members[0].depth;
    let mut k: usize = 1;
    assert(ms.subrange(0, 1).len() == 1);
    while k < members.len()
        invariant
            1 <= k <= members@.len(),
            ms == config_views(members@),
            depth as nat == max_depth(ms.subrange(0, k as int)),
        decreases members@.len() - k,
    {
        assert(ms.subrange(0, k + 1).drop_last() =~= ms.subrange(0, k as int));
        assert(ms.subrange(0, k + 1).last() == members@[k as int]@);
        if members[k].depth > depth {
            depth = members[k].depth;
        }
        k = k + 1;
    }
    assert(ms.subrange(0, k as int) =~= ms);
    merged.depth = depth;
    merged.branch_fallbacks = distinct_in_order(gather(&members, &ListKind::BranchFallbacks));
    let packages = stable_union(gather(&members, &ListKind::Packages));
    let wishes = keep_absent(gather(&members, &ListKind::WishPackages), &packages);
    merged.wish_packages = stable_union(wishes);
    merged.packages = packages;
    merged.consumer_targets = targets;
    merged.version_constraints = constraints;
    Ok(PinGroup { input_name, members, merged })
}

/// The flake input names of the requirements, in order.
pub open spec fn input_names(cs: Seq<ConfigView>) -> Seq<Seq<char>> {
    cs.map_values(|c: ConfigView| c.input_name)
}

/// The requirements for one flake input, in their given order.
pub open spec fn members_with(cs: Seq<ConfigView>, input: Seq<char>) -> Seq<ConfigView>
    decreases cs.len(),
{
    if cs.len() == 0 {
        seq![]
    } else if cs.last().input_name == input {
        members_with(cs.drop_last(), input).push(cs.last())
    } else {
        members_with(cs.drop_last(), input)
    }
}

/// The requirements for one flake input, ordered by name.
pub open spec fn group_members(cs: Seq<ConfigView>, input: Seq<char>) -> Seq<ConfigView> {
    sort_by_name(members_with(cs, input))
}

/// The flake inputs that the requirements name, each once, in increasing order.
pub open spec fn group_keys(cs: Seq<ConfigView>) -> Seq<Seq<char>> {
    sorted_distinct(input_names(cs))
}

/// The first of `keys` whose group does not merge.
pub open spec fn first_failed_group(keys: Seq<Seq<char>>, cs: Seq<ConfigView>) -> Option<Seq<char>>
    decreases keys.len(),
{
    if keys.len() == 0 {
        None
    } else if spec_merge_group(keys[0], group_members(cs, keys[0])) is Merged {
        first_failed_group(keys.drop_first(), cs)
    } else {
        Some(keys[0])
    }
}

/// Copies the requirements for one flake input, in their given order.
fn collect_members(configs: &Vec<PinConfig>, input: &str) -> (r: Vec<PinConfig>)
    ensures
        config_views(r@) == members_with(config_views(configs@), input@),
{
    let ghost cs = config_views(configs@);
    let mut out: Vec<PinConfig> = Vec::new();
    let mut i: usize = 0;
    while i < configs.len()
        invariant
            i <= configs@.len(),
            cs == config_views(configs@),
            config_views(out@) == members_with(cs.subrange(0, i as int), input@),
        decreases configs@.len() - i,
    {
        assert(cs.subrange(0, i + 1).drop_last() =~= cs.subrange(0, i as int));
        assert(cs.subrange(0, i + 1).last() == configs@[i as int]@);
        if text_eq(configs[i].input_name.as_str(), input) {
            let ghost before = config_views(out@);
            out.push(configs[i].duplicate());
            assert(config_views(out@) =~= before.push(configs@[i as int]@));
        }
        i = i + 1;
    }
    assert(cs.subrange(0, i as int) =~= cs);
    out
}

/// Groups requirements by flake input, in increasing order of input name,
/// and merges each group, whose members are ordered by name. Fails with the
/// error of the first group that does not merge.
pub fn group_configs(configs: Vec<PinConfig>) -> (r: Result<Vec<PinGroup>, Error>)
    ensures
        ({
            let cs = config_views(configs@);
            let keys = group_keys(cs);
            match r {
                Ok(groups) => first_failed_group(keys, cs) is None && groups@.len() == keys.len()
                    && forall|i: int| 0 <= i < keys.len() ==> {
                        &&& (#[trigger] groups@[i]).input_name@ == keys[i]
                        &&& config_views(groups@[i].members@) == group_members(cs, keys[i])
                        &&& spec_merge_group(keys[i], group_members(cs, keys[i])) == MergeOutcome::Merged(groups@[i].merged@)
                    },
                Err(e) => first_failed_group(keys, cs) matches Some(k)
                    && reports(e, k, group_members(cs, k), spec_merge_group(k, group_members(cs, k))),
            }
        }),
        ({
            let cs = config_views(configs@);
            &&& (r is Err) == exists|x: ConfigView, y: ConfigView|
                cs.contains(x) && cs.contains(y) && x.input_name == y.input_name && #[trigger] members_disagree(x, y)
            &&& r matches Ok(groups) ==> {
                &&& members_of(groups@).to_multiset() == cs.to_multiset()
                &&& forall|i: int, j: int| 0 <= i < j < groups@.len()
                    ==> text_lt(#[trigger] groups@[i].input_name@, #[trigger] groups@[j].input_name@)
                &&& forall|i: int| 0 <= i < groups@.len() ==> ordered_by_name(config_views((#[trigger] groups@[i]).members@))
                &&& forall|i: int, m: ConfigView| 0 <= i < groups@.len() && #[trigger] config_views(groups@[i].members@).contains(m)
                    ==> m.input_name == groups@[i].input_name@
            }
        }),
{
    let ghost cs = config_views(configs@);
    let mut names: Vec<String> = Vec::new();
    let mut i: usize = 0;
    while i < configs.len()
        invariant
            i <= configs@.len(),
            cs == config_views(configs@),
            texts(names@) == input_names(cs).subrange(0, i as int),
        decreases configs@.len() - i,
    {
        let ghost prev = names@;
        names.push(copy_string(&configs[i].input_name));
        assert(texts(names@) =~= texts(prev).push(configs@[i as int].input_name@));
        assert(input_names(cs)[i as int] == configs@[i as int].input_name@);
        assert(texts(names@) =~= input_names(cs).subrange(0, i + 1));
        i = i + 1;
    }
    assert(texts(names@) =~= input_names(cs));
    let keys = stable_union(names);
    let ghost kv = texts(keys@);
    let mut groups: Vec<PinGroup> = Vec::new();
    let mut k: usize = 0;
    assert(kv.subrange(0, kv.len() as int) =~= kv);
    while k < keys.len()
        invariant
            k <= keys@.len(),
            cs == config_views(configs@),
            kv == texts(keys@),
            kv == group_keys(cs),
            groups@.len() == k,
            first_failed_group(kv, cs) == first_failed_group(kv.subrange(k as int, kv.len() as int), cs),
            forall|j: int| 0 <= j < k ==> {
                &&& (#[trigger] groups@[j]).input_name@ == kv[j]
                &&& config_views(groups@[j].members@) == group_members(cs, kv[j])
                &&& spec_merge_group(kv[j], group_members(cs, kv[j])) == MergeOutcome::Merged(groups@[j].merged@)
            },
        decreases keys@.len() - k,
    {
        let ghost tail = kv.subrange(k as int, kv.len() as int);
        assert(tail[0] == keys@[k as int]@);
        assert(tail.drop_first() =~= kv.subrange(k + 1, kv.len() as int));
        let members = sort_members_by_name(collect_members(&configs, keys[k].as_str()));
        match merge_group(copy_string(&keys[k]), members) {
            Ok(g) => {
                groups.push(g);
            },
            Err(e) => {
                assert(first_failed_group(kv, cs) is Some);
                proof {
                    lemma_groups_conflict(cs);
                }
                return Err(e);
            },
        }
        k = k + 1;
    }
    proof {
        lemma_groups_conflict(cs);
        lemma_group_keys(cs);
        lemma_groups_partition(cs);
        lemma_members_of(groups@, cs, kv);
        assert forall|i: int, m: ConfigView| 0 <= i < groups@.len() && #[trigger] config_views(groups@[i].members@).contains(m)
            implies m.input_name == groups@[i].input_name@ by {
            lemma_group_members(cs, kv[i]);
            assert(config_views(groups@[i].members@) == group_members(cs, kv[i]));
            assert(group_members(cs, kv[i]).contains(m));
            assert(cs.contains(m) && m.input_name == kv[i]);
            assert(groups@[i].input_name@ == kv[i]);
        }
        assert forall|i: int| 0 <= i < groups@.len() implies ordered_by_name(config_views((#[trigger] groups@[i]).members@)) by {
            lemma_group_members(cs, kv[i]);
        }
    }
    Ok(groups)
}

/// The members of the groups, one group after the other.
pub open spec fn members_of(groups: Seq<PinGroup>) -> Seq<ConfigView>
    decreases groups.len(),
{
    if groups.len() == 0 {
        seq![]
    } else {
        config_views(groups[0].members@) + members_of(groups.drop_first())
    }
}

proof fn lemma_members_of(groups: Seq<PinGroup>, cs: Seq<ConfigView>, keys: Seq<Seq<char>>)
    requires
        groups.len() == keys.len(),
        forall|i: int| 0 <= i < keys.len() ==> config_views((#[trigger] groups[i]).members@) == group_members(cs, keys[i]),
    ensures
        members_of(groups) == grouped(cs, keys),
    decreases keys.len(),
{
    if keys.len() > 0 {
        assert forall|i: int| 0 <= i < keys.drop_first().len() implies config_views((#[trigger] groups.drop_first()[i]).members@)
            == group_members(cs, keys.drop_first()[i]) by {
            assert(groups.drop_first()[i] == groups[i + 1]);
        }
        lemma_members_of(groups.drop_first(), cs, keys.drop_first());
        assert(config_views(groups[0].members@) == group_members(cs, keys[0]));
    }
}

/// Requirements in order of name: no later one has a smaller name.
pub open spec fn ordered_by_name(s: Seq<ConfigView>) -> bool {
    forall|i: int, j: int| 0 <= i < j < s.len() ==> !text_lt(#[trigger] s[j].name, #[trigger] s[i].name)
}

proof fn lemma_insert_by_name_contents(s: Seq<ConfigView>, c: ConfigView)
    ensures
        insert_by_name(s, c).to_multiset() == s.to_multiset().insert(c),
        forall|x: ConfigView| #[trigger] insert_by_name(s, c).contains(x) <==> (s.contains(x) || x == c),
    decreases s.len(),
{
    broadcast use vstd::seq_lib::group_to_multiset_ensures;
    if s.len() == 0 {
        assert(seq![c] =~= Seq::<ConfigView>::empty().push(c));
        assert(Seq::<ConfigView>::empty().to_multiset() =~= vstd::multiset::Multiset::empty());
        assert forall|x: ConfigView| #[trigger] insert_by_name(s, c).contains(x) <==> (s.contains(x) || x == c) by {
            if x == c {
                assert(seq![c][0] == c);
            }
        }
    } else if text_lt(c.name, s.last().name) {
        let t = s.drop_last();
        lemma_insert_by_name_contents(t, c);
        assert(s =~= t.push(s.last()));
        assert(insert_by_name(s, c).to_multiset() =~= s.to_multiset().insert(c));
        assert forall|x: ConfigView| insert_by_name(s, c).contains(x) <==> (s.contains(x) || x == c) by {
            let r = insert_by_name(t, c).push(s.last());
            if r.contains(x) {
                let i = choose|i: int| 0 <= i < r.len() && r[i] == x;
                if i < r.len() - 1 {
                    assert(insert_by_name(t, c)[i] == x);
                    assert(insert_by_name(t, c).contains(x));
                    if x != c {
                        assert(t.contains(x));
                        let j = choose|j: int| 0 <= j < t.len() && t[j] == x;
                        assert(s[j] == x);
                    }
                } else {
                    assert(s[s.len() - 1] == x);
                }
            }
            if s.contains(x) {
                let j = choose|j: int| 0 <= j < s.len() && s[j] == x;
                if j < s.len() - 1 {
                    assert(t[j] == x);
                    assert(t.contains(x));
                    assert(insert_by_name(t, c).contains(x));
                    let i = choose|i: int| 0 <= i < insert_by_name(t, c).len() && insert_by_name(t, c)[i] == x;
                    assert(r[i] == x);
                } else {
                    assert(r[r.len() - 1] == x);
                }
            }
            if x == c {
                assert(insert_by_name(t, c).contains(c));
                let i = choose|i: int| 0 <= i < insert_by_name(t, c).len() && insert_by_name(t, c)[i] == c;
                assert(r[i] == c);
            }
        }
    } else {
        assert forall|x: ConfigView| s.push(c).contains(x) <==> (s.contains(x) || x == c) by {
            if s.push(c).contains(x) {
                let i = choose|i: int| 0 <= i < s.len() + 1 && s.push(c)[i] == x;
                if i < s.len() {
                    assert(s[i] == x);
                }
            }
            if s.contains(x) {
                let j = choose|j: int| 0 <= j < s.len() && s[j] == x;
                assert(s.push(c)[j] == x);
            }
            if x == c {
                assert(s.push(c)[s.len() as int] == c);
            }
        }
    }
}

proof fn lemma_insert_by_name_ordered(s: Seq<ConfigView>, c: ConfigView)
    requires
        ordered_by_name(s),
    ensures
        ordered_by_name(insert_by_name(s, c)),
    decreases s.len(),
{
    if s.len() == 0 {
    } else if text_lt(c.name, s.last().name) {
        let t = s.drop_last();
        let last = s.last();
        assert(ordered_by_name(t)) by {
            assert forall|i: int, j: int| 0 <= i < j < t.len() implies !text_lt(#[trigger] t[j].name, #[trigger] t[i].name) by {
                assert(t[i] == s[i] && t[j] == s[j]);
            }
        }
        lemma_insert_by_name_ordered(t, c);
        lemma_insert_by_name_contents(t, c);
        let u = insert_by_name(t, c);
        let r = u.push(last);
        assert forall|i: int, j: int| 0 <= i < j < r.len() implies !text_lt(#[trigger] r[j].name, #[trigger] r[i].name) by {
            if j < r.len() - 1 {
                assert(r[i] == u[i] && r[j] == u[j]);
            } else {
                assert(r[j] == last);
                assert(r[i] == u[i]);
                assert(u.contains(r[i]));
                if r[i] == c {
                    lemma_text_lt_asymmetric(c.name, last.name);
                } else {
                    assert(t.contains(r[i]));
                    let k = choose|k: int| 0 <= k < t.len() && t[k] == r[i];
                    assert(s[k] == r[i]);
                    assert(s[s.len() - 1] == last);
                }
            }
        }
    } else {
        let last = s.last();
        let r = s.push(c);
        assert forall|i: int, j: int| 0 <= i < j < r.len() implies !text_lt(#[trigger] r[j].name, #[trigger] r[i].name) by {
            if j < s.len() {
                assert(r[i] == s[i] && r[j] == s[j]);
            } else {
                assert(r[i] == s[i]);
                if text_lt(c.name, s[i].name) {
                    if i < s.len() - 1 {
                        assert(!text_lt(s[s.len() - 1].name, s[i].name));
                        lemma_text_lt_total(s[i].name, last.name);
                        if text_lt(s[i].name, last.name) {
                            crate::text::lemma_text_lt_transitive(c.name, s[i].name, last.name);
                        }
                    }
                }
            }
        }
    }
}

proof fn lemma_sort_by_name(ms: Seq<ConfigView>)
    ensures
        ordered_by_name(sort_by_name(ms)),
        sort_by_name(ms).to_multiset() == ms.to_multiset(),
        forall|x: ConfigView| #[trigger] sort_by_name(ms).contains(x) <==> ms.contains(x),
    decreases ms.len(),
{
    broadcast use vstd::seq_lib::group_to_multiset_ensures;
    if ms.len() == 0 {
        assert(sort_by_name(ms) =~= ms);
    } else {
        let t = ms.drop_last();
        lemma_sort_by_name(t);
        lemma_insert_by_name_ordered(sort_by_name(t), ms.last());
        lemma_insert_by_name_contents(sort_by_name(t), ms.last());
        assert(ms =~= t.push(ms.last()));
        assert forall|x: ConfigView| sort_by_name(ms).contains(x) <==> ms.contains(x) by {
            if ms.contains(x) {
                let j = choose|j: int| 0 <= j < ms.len() && ms[j] == x;
                if j < ms.len() - 1 {
                    assert(t[j] == x);
                }
            }
            if t.contains(x) {
                let j = choose|j: int| 0 <= j < t.len() && t[j] == x;
                assert(ms[j] == x);
            }
        }
    }
}

proof fn lemma_members_with(cs: Seq<ConfigView>, input: Seq<char>)
    ensures
        forall|x: ConfigView| #[trigger] members_with(cs, input).contains(x) <==> (cs.contains(x) && x.input_name == input),
        members_with(cs, input).len() > 0 <==> input_names(cs).contains(input),
    decreases cs.len(),
{
    if cs.len() > 0 {
        let t = cs.drop_last();
        lemma_members_with(t, input);
        let m = members_with(cs, input);
        let mt = members_with(t, input);
        assert forall|x: ConfigView| m.contains(x) <==> (cs.contains(x) && x.input_name == input) by {
            if m.contains(x) {
                let i = choose|i: int| 0 <= i < m.len() && m[i] == x;
                if cs.last().input_name == input && i == m.len() - 1 {
                    assert(cs[cs.len() - 1] == x);
                } else {
                    assert(mt[i] == x);
                    assert(mt.contains(x));
                    assert(t.contains(x));
                    let j = choose|j: int| 0 <= j < t.len() && t[j] == x;
                    assert(cs[j] == x);
                }
            }
            if cs.contains(x) && x.input_name == input {
                let j = choose|j: int| 0 <= j < cs.len() && cs[j] == x;
                if j == cs.len() - 1 {
                    assert(m[m.len() - 1] == x);
                } else {
                    assert(t[j] == x);
                    assert(t.contains(x));
                    assert(mt.contains(x));
                    let i = choose|i: int| 0 <= i < mt.len() && mt[i] == x;
                    if cs.last().input_name == input {
                        assert(m[i] == x);
                    }
                }
            }
        }
        let names = input_names(cs);
        assert(input_names(t) =~= names.drop_last());
        if names.contains(input) {
            let j = choose|j: int| 0 <= j < names.len() && names[j] == input;
            assert(cs.contains(cs[j]));
            assert(m.contains(cs[j]));
        }
        if m.len() > 0 {
            assert(m.contains(m[0]));
            let j = choose|j: int| 0 <= j < cs.len() && cs[j] == m[0];
            assert(names[j] == input);
        }
    } else {
        assert(input_names(cs).len() == 0);
    }
}

/// The groups' flake inputs are distinct and in increasing order, and they
/// are exactly the inputs that the requirements name.
pub proof fn lemma_group_keys(cs: Seq<ConfigView>)
    ensures
        forall|i: int, j: int| 0 <= i < j < group_keys(cs).len() ==> text_lt(#[trigger] group_keys(cs)[i], #[trigger] group_keys(cs)[j]),
        forall|k: Seq<char>| group_keys(cs).contains(k) <==> input_names(cs).contains(k),
{
    lemma_sorted_distinct(input_names(cs));
}

/// The group of a flake input holds exactly the requirements that name that
/// input, each as often as it occurs, ordered by name; it is empty only for
/// an input that no requirement names.
pub proof fn lemma_group_members(cs: Seq<ConfigView>, input: Seq<char>)
    ensures
        forall|x: ConfigView| group_members(cs, input).contains(x) <==> (cs.contains(x) && x.input_name == input),
        group_members(cs, input).to_multiset() == members_with(cs, input).to_multiset(),
        ordered_by_name(group_members(cs, input)),
        group_members(cs, input).len() > 0 <==> input_names(cs).contains(input),
{
    broadcast use vstd::seq_lib::group_to_multiset_ensures;
    lemma_sort_by_name(members_with(cs, input));
    lemma_members_with(cs, input);
}


/// The two requirements agree on every setting that must be shared.
pub open spec fn same_settings(a: ConfigView, b: ConfigView) -> bool {
    &&& a.flake_ref == b.flake_ref
    &&& a.attr_prefix == b.attr_prefix
    &&& a.python_packages == b.python_packages
    &&& a.caches == b.caches
    &&& a.hydra_jobset == b.hydra_jobset
    &&& a.hydra_url == b.hydra_url
    &&& a.hydra_job_pattern == b.hydra_job_pattern
    &&& a.hydra_rev_input == b.hydra_rev_input
    &&& a.branch == b.branch
    &&& a.flake_output == b.flake_output
    &&& a.consumer_flake_ref == b.consumer_flake_ref
    &&& a.fail_fast == b.fail_fast
    &&& a.arch == b.arch
    &&& a.lock_only == b.lock_only
    &&& a.verify_closure == b.verify_closure
}

/// The two entry sequences give some key two different values.
pub open spec fn entries_disagree<W>(a: Seq<(Seq<char>, W)>, b: Seq<(Seq<char>, W)>) -> bool {
    exists|k: Seq<char>, w1: W, w2: W| w1 != w2 && #[trigger] in_pairs(a, k, w1) && #[trigger] in_pairs(b, k, w2)
}

/// The two requirements cannot be merged: they differ on a shared setting,
/// or give one package two consumer targets or two version gates.
pub open spec fn members_disagree(a: ConfigView, b: ConfigView) -> bool {
    ||| !same_settings(a, b)
    ||| entries_disagree(a.consumer_targets, b.consumer_targets)
    ||| entries_disagree(a.version_constraints, b.version_constraints)
}

proof fn lemma_same_settings(a: ConfigView, b: ConfigView)
    ensures
        (first_difference(field_checks(a, b)) is None) == same_settings(a, b),
{
    reveal_with_fuel(first_difference, 16);
}

proof fn lemma_first_member_difference(first: ConfigView, rest: Seq<ConfigView>)
    ensures
        (first_member_difference(first, rest) is None) == forall|j: int| 0 <= j < rest.len() ==> same_settings(first, #[trigger] rest[j]),
    decreases rest.len(),
{
    if rest.len() > 0 {
        lemma_same_settings(first, rest[0]);
        lemma_first_member_difference(first, rest.drop_first());
        if forall|j: int| 0 <= j < rest.drop_first().len() ==> same_settings(first, #[trigger] rest.drop_first()[j]) {
            assert forall|j: int| 0 <= j < rest.len() && same_settings(first, rest[0]) implies same_settings(first, #[trigger] rest[j]) by {
                if j > 0 {
                    assert(rest[j] == rest.drop_first()[j - 1]);
                }
            }
        }
        if forall|j: int| 0 <= j < rest.len() ==> same_settings(first, #[trigger] rest[j]) {
            assert(same_settings(first, rest[0]));
            assert forall|j: int| 0 <= j < rest.drop_first().len() implies same_settings(first, #[trigger] rest.drop_first()[j]) by {
                assert(rest.drop_first()[j] == rest[j + 1]);
            }
        }
    }
}

proof fn lemma_in_maps_members<W>(maps: Seq<Seq<(Seq<char>, W)>>, k: Seq<char>, w: W)
    ensures
        in_maps(maps, k, w) == exists|i: int| 0 <= i < maps.len() && #[trigger] in_pairs(maps[i], k, w),
{
}

proof fn lemma_maps_disagree<W>(maps: Seq<Seq<(Seq<char>, W)>>)
    ensures
        (merge_all(Seq::empty(), maps) is Err) == exists|i: int, j: int|
            0 <= i < maps.len() && 0 <= j < maps.len() && entries_disagree(#[trigger] maps[i], #[trigger] maps[j]),
{
    lemma_merge_union(maps);
    if merge_all(Seq::empty(), maps) is Err {
        let k = merge_all(Seq::empty(), maps)->Err_0;
        let (w1, w2) = choose|w1: W, w2: W| w1 != w2 && #[trigger] in_maps(maps, k, w1) && #[trigger] in_maps(maps, k, w2);
        let i = choose|i: int| 0 <= i < maps.len() && #[trigger] in_pairs(maps[i], k, w1);
        let j = choose|j: int| 0 <= j < maps.len() && #[trigger] in_pairs(maps[j], k, w2);
        assert(entries_disagree(maps[i], maps[j]));
    }
    if exists|i: int, j: int| 0 <= i < maps.len() && 0 <= j < maps.len() && entries_disagree(#[trigger] maps[i], #[trigger] maps[j]) {
        let (i, j) = choose|i: int, j: int| 0 <= i < maps.len() && 0 <= j < maps.len() && entries_disagree(#[trigger] maps[i], #[trigger] maps[j]);
        let (k, w1, w2) = choose|k: Seq<char>, w1: W, w2: W| w1 != w2 && #[trigger] in_pairs(maps[i], k, w1) && #[trigger] in_pairs(maps[j], k, w2);
        assert(in_maps(maps, k, w1));
        assert(in_maps(maps, k, w2));
    }
}

/// Every two of the requirements agree on the shared settings.
pub open spec fn settings_agree(ms: Seq<ConfigView>) -> bool {
    forall|i: int, j: int| 0 <= i < ms.len() && 0 <= j < ms.len() ==> same_settings(#[trigger] ms[i], #[trigger] ms[j])
}

/// Two of the requirements give some package two consumer targets.
pub open spec fn targets_clash(ms: Seq<ConfigView>) -> bool {
    exists|i: int, j: int| 0 <= i < ms.len() && 0 <= j < ms.len()
        && entries_disagree(#[trigger] ms[i].consumer_targets, #[trigger] ms[j].consumer_targets)
}

/// Two of the requirements give some package two version gates.
pub open spec fn constraints_clash(ms: Seq<ConfigView>) -> bool {
    exists|i: int, j: int| 0 <= i < ms.len() && 0 <= j < ms.len()
        && entries_disagree(#[trigger] ms[i].version_constraints, #[trigger] ms[j].version_constraints)
}

/// Some two of the requirements cannot be merged.
pub open spec fn some_members_disagree(ms: Seq<ConfigView>) -> bool {
    exists|i: int, j: int| 0 <= i < ms.len() && 0 <= j < ms.len() && members_disagree(#[trigger] ms[i], #[trigger] ms[j])
}

/// Merging the requirements for one input fails exactly when two of them
/// cannot be merged; otherwise the combined requirement holds every consumer
/// target and every version gate of the members, and no other. When the
/// shared settings agree, a clash of consumer targets is reported for a
/// package given two targets, and otherwise a clash of version gates for a
/// package given two gates.
pub proof fn lemma_merge_group_conflicts(input: Seq<char>, ms: Seq<ConfigView>)
    requires
        ms.len() > 0,
    ensures
        spec_merge_group(input, ms) is Merged || spec_merge_group(input, ms) is Conflict,
        (spec_merge_group(input, ms) is Conflict) == some_members_disagree(ms),
        spec_merge_group(input, ms) matches MergeOutcome::Merged(g) ==> {
            &&& forall|k: Seq<char>, w: Seq<char>| #[trigger] holds(g.consumer_targets, k, w) == in_maps(target_maps(ms), k, w)
            &&& forall|k: Seq<char>, w: ConstraintView| #[trigger] holds(g.version_constraints, k, w) == in_maps(constraint_maps(ms), k, w)
        },
        settings_agree(ms) && targets_clash(ms) ==> exists|k: Seq<char>, w1: Seq<char>, w2: Seq<char>|
            w1 != w2 && #[trigger] in_maps(target_maps(ms), k, w1) && #[trigger] in_maps(target_maps(ms), k, w2)
                && spec_merge_group(input, ms) == MergeOutcome::Conflict("consumer target for "@ + k + " differs"@),
        settings_agree(ms) && !targets_clash(ms) && constraints_clash(ms) ==> exists|k: Seq<char>, w1: ConstraintView, w2: ConstraintView|
            w1 != w2 && #[trigger] in_maps(constraint_maps(ms), k, w1) && #[trigger] in_maps(constraint_maps(ms), k, w2)
                && spec_merge_group(input, ms) == MergeOutcome::Conflict("version constraint for "@ + k + " differs"@),
{
    let first = ms[0];
    let rest = ms.drop_first();
    let tm = target_maps(ms);
    let cm = constraint_maps(ms);
    lemma_first_member_difference(first, rest);
    lemma_merge_union(tm);
    lemma_merge_union(cm);
    lemma_maps_disagree(tm);
    lemma_maps_disagree(cm);
    assert forall|i: int| 0 <= i < ms.len() implies #[trigger] tm[i] == ms[i].consumer_targets && cm[i] == ms[i].version_constraints by {}
    let all_same = forall|j: int| 0 <= j < rest.len() ==> same_settings(first, #[trigger] rest[j]);
    if !all_same {
        let j = choose|j: int| 0 <= j < rest.len() && !same_settings(first, #[trigger] rest[j]);
        assert(rest[j] == ms[j + 1]);
        assert(members_disagree(ms[0], ms[j + 1]));
        assert(!settings_agree(ms)) by {
            assert(!same_settings(ms[0], ms[j + 1]));
        }
    } else {
        assert forall|i: int, j: int| 0 <= i < ms.len() && 0 <= j < ms.len() implies same_settings(#[trigger] ms[i], #[trigger] ms[j]) by {
            if i > 0 {
                assert(ms[i] == rest[i - 1]);
            }
            if j > 0 {
                assert(ms[j] == rest[j - 1]);
            }
        }
        if some_members_disagree(ms) {
            let (i, j) = choose|i: int, j: int| 0 <= i < ms.len() && 0 <= j < ms.len() && members_disagree(#[trigger] ms[i], #[trigger] ms[j]);
            assert(same_settings(ms[i], ms[j]));
            if entries_disagree(ms[i].consumer_targets, ms[j].consumer_targets) {
                assert(entries_disagree(tm[i], tm[j]));
            } else {
                assert(entries_disagree(cm[i], cm[j]));
            }
        }
        if merge_all(Seq::empty(), tm) is Err {
            let (i, j) = choose|i: int, j: int| 0 <= i < tm.len() && 0 <= j < tm.len() && entries_disagree(#[trigger] tm[i], #[trigger] tm[j]);
            assert(members_disagree(ms[i], ms[j]));
        } else if merge_all(Seq::empty(), cm) is Err {
            let (i, j) = choose|i: int, j: int| 0 <= i < cm.len() && 0 <= j < cm.len() && entries_disagree(#[trigger] cm[i], #[trigger] cm[j]);
            assert(members_disagree(ms[i], ms[j]));
        }
        if targets_clash(ms) {
            let (i, j) = choose|i: int, j: int| 0 <= i < ms.len() && 0 <= j < ms.len()
                && entries_disagree(#[trigger] ms[i].consumer_targets, #[trigger] ms[j].consumer_targets);
            assert(entries_disagree(tm[i], tm[j]));
            let k = merge_all(Seq::empty(), tm)->Err_0;
            let (w1, w2) = choose|w1: Seq<char>, w2: Seq<char>| w1 != w2 && #[trigger] in_maps(tm, k, w1) && #[trigger] in_maps(tm, k, w2);
            assert(spec_merge_group(input, ms) == MergeOutcome::Conflict("consumer target for "@ + k + " differs"@));
        } else if constraints_clash(ms) {
            if merge_all(Seq::empty(), tm) is Err {
                let (i, j) = choose|i: int, j: int| 0 <= i < tm.len() && 0 <= j < tm.len() && entries_disagree(#[trigger] tm[i], #[trigger] tm[j]);
                assert(entries_disagree(ms[i].consumer_targets, ms[j].consumer_targets));
            }
            let (i, j) = choose|i: int, j: int| 0 <= i < ms.len() && 0 <= j < ms.len()
                && entries_disagree(#[trigger] ms[i].version_constraints, #[trigger] ms[j].version_constraints);
            assert(entries_disagree(cm[i], cm[j]));
            let k = merge_all(Seq::empty(), cm)->Err_0;
            let (w1, w2) = choose|w1: ConstraintView, w2: ConstraintView| w1 != w2 && #[trigger] in_maps(cm, k, w1) && #[trigger] in_maps(cm, k, w2);
            assert(spec_merge_group(input, ms) == MergeOutcome::Conflict("version constraint for "@ + k + " differs"@));
        }
    }
}

/// The groups of `keys`, one after the other.
pub open spec fn grouped(cs: Seq<ConfigView>, keys: Seq<Seq<char>>) -> Seq<ConfigView>
    decreases keys.len(),
{
    if keys.len() == 0 {
        seq![]
    } else {
        group_members(cs, keys[0]) + grouped(cs, keys.drop_first())
    }
}

spec fn grouped_in_order(cs: Seq<ConfigView>, keys: Seq<Seq<char>>) -> Seq<ConfigView>
    decreases keys.len(),
{
    if keys.len() == 0 {
        seq![]
    } else {
        members_with(cs, keys[0]) + grouped_in_order(cs, keys.drop_first())
    }
}

proof fn lemma_grouped_sorting(cs: Seq<ConfigView>, keys: Seq<Seq<char>>)
    ensures
        grouped(cs, keys).to_multiset() == grouped_in_order(cs, keys).to_multiset(),
    decreases keys.len(),
{
    if keys.len() > 0 {
        lemma_grouped_sorting(cs, keys.drop_first());
        lemma_group_members(cs, keys[0]);
        vstd::seq_lib::lemma_multiset_commutative(group_members(cs, keys[0]), grouped(cs, keys.drop_first()));
        vstd::seq_lib::lemma_multiset_commutative(members_with(cs, keys[0]), grouped_in_order(cs, keys.drop_first()));
    }
}

proof fn lemma_grouped_push(cs: Seq<ConfigView>, x: ConfigView, keys: Seq<Seq<char>>)
    requires
        keys.no_duplicates(),
    ensures
        grouped_in_order(cs.push(x), keys).to_multiset() == if keys.contains(x.input_name) {
            grouped_in_order(cs, keys).to_multiset().insert(x)
        } else {
            grouped_in_order(cs, keys).to_multiset()
        },
    decreases keys.len(),
{
    broadcast use vstd::seq_lib::group_to_multiset_ensures;
    if keys.len() > 0 {
        let rest = keys.drop_first();
        assert(rest.no_duplicates());
        lemma_grouped_push(cs, x, rest);
        let c2 = cs.push(x);
        assert(c2.drop_last() =~= cs);
        assert(c2.last() == x);
        vstd::seq_lib::lemma_multiset_commutative(members_with(c2, keys[0]), grouped_in_order(c2, rest));
        vstd::seq_lib::lemma_multiset_commutative(members_with(cs, keys[0]), grouped_in_order(cs, rest));
        if keys[0] == x.input_name {
            assert(!rest.contains(x.input_name)) by {
                if rest.contains(x.input_name) {
                    let j = choose|j: int| 0 <= j < rest.len() && rest[j] == x.input_name;
                    assert(keys[j + 1] == keys[0]);
                }
            }
            assert(keys.contains(x.input_name)) by {
                assert(keys[0] == x.input_name);
            }
        } else {
            assert(keys.contains(x.input_name) == rest.contains(x.input_name)) by {
                if keys.contains(x.input_name) {
                    let j = choose|j: int| 0 <= j < keys.len() && keys[j] == x.input_name;
                    assert(rest[j - 1] == keys[j]);
                }
                if rest.contains(x.input_name) {
                    let j = choose|j: int| 0 <= j < rest.len() && rest[j] == x.input_name;
                    assert(keys[j + 1] == rest[j]);
                }
            }
        }
    }
}

proof fn lemma_grouped_all(cs: Seq<ConfigView>, keys: Seq<Seq<char>>)
    requires
        keys.no_duplicates(),
        forall|i: int| 0 <= i < cs.len() ==> keys.contains(#[trigger] cs[i].input_name),
    ensures
        grouped_in_order(cs, keys).to_multiset() == cs.to_multiset(),
    decreases cs.len(),
{
    broadcast use vstd::seq_lib::group_to_multiset_ensures;
    if cs.len() == 0 {
        lemma_grouped_empty(keys);
        assert(cs =~= Seq::<ConfigView>::empty());
        assert(Seq::<ConfigView>::empty().to_multiset() =~= vstd::multiset::Multiset::empty());
    } else {
        let front = cs.drop_last();
        assert forall|i: int| 0 <= i < front.len() implies keys.contains(#[trigger] front[i].input_name) by {
            assert(front[i] == cs[i]);
        }
        lemma_grouped_all(front, keys);
        assert(front.push(cs.last()) =~= cs);
        assert(keys.contains(cs[cs.len() - 1].input_name));
        lemma_grouped_push(front, cs.last(), keys);
        assert(grouped_in_order(cs, keys) == grouped_in_order(front.push(cs.last()), keys));
        assert(cs.to_multiset() =~= front.to_multiset().insert(cs.last()));
    }
}

proof fn lemma_grouped_empty(keys: Seq<Seq<char>>)
    ensures
        grouped_in_order(Seq::<ConfigView>::empty(), keys) =~= Seq::<ConfigView>::empty(),
    decreases keys.len(),
{
    if keys.len() > 0 {
        lemma_grouped_empty(keys.drop_first());
    }
}

proof fn lemma_keys_distinct(cs: Seq<ConfigView>)
    ensures
        group_keys(cs).no_duplicates(),
        forall|i: int| 0 <= i < cs.len() ==> group_keys(cs).contains(#[trigger] cs[i].input_name),
{
    lemma_group_keys(cs);
    let keys = group_keys(cs);
    assert forall|i: int, j: int| 0 <= i < keys.len() && 0 <= j < keys.len() && i != j implies keys[i] != keys[j] by {
        if i < j {
            assert(text_lt(keys[i], keys[j]));
        } else {
            assert(text_lt(keys[j], keys[i]));
        }
        crate::text::lemma_text_lt_irreflexive(keys[i]);
    }
    assert forall|i: int| 0 <= i < cs.len() implies keys.contains(#[trigger] cs[i].input_name) by {
        assert(input_names(cs)[i] == cs[i].input_name);
    }
}

/// Taken one after the other, the groups hold every requirement exactly
/// once: grouping only reorders the requirements.
pub proof fn lemma_groups_partition(cs: Seq<ConfigView>)
    ensures
        grouped(cs, group_keys(cs)).to_multiset() == cs.to_multiset(),
{
    lemma_keys_distinct(cs);
    lemma_grouped_sorting(cs, group_keys(cs));
    lemma_grouped_all(cs, group_keys(cs));
}

proof fn lemma_first_failed(keys: Seq<Seq<char>>, cs: Seq<ConfigView>)
    ensures
        (first_failed_group(keys, cs) is Some) == exists|i: int|
            0 <= i < keys.len() && !(spec_merge_group(#[trigger] keys[i], group_members(cs, keys[i])) is Merged),
    decreases keys.len(),
{
    if keys.len() > 0 {
        let rest = keys.drop_first();
        lemma_first_failed(rest, cs);
        if exists|i: int| 0 <= i < rest.len() && !(spec_merge_group(#[trigger] rest[i], group_members(cs, rest[i])) is Merged) {
            let i = choose|i: int| 0 <= i < rest.len() && !(spec_merge_group(#[trigger] rest[i], group_members(cs, rest[i])) is Merged);
            assert(keys[i + 1] == rest[i]);
        }
        if exists|i: int| 0 <= i < keys.len() && !(spec_merge_group(#[trigger] keys[i], group_members(cs, keys[i])) is Merged) {
            let i = choose|i: int| 0 <= i < keys.len() && !(spec_merge_group(#[trigger] keys[i], group_members(cs, keys[i])) is Merged);
            if i > 0 {
                assert(rest[i - 1] == keys[i]);
            }
        }
    }
}

/// Grouping fails exactly when two requirements for the same flake input
/// cannot be merged: they differ on a shared setting, or give one package
/// two consumer targets or two version gates.
pub proof fn lemma_groups_conflict(cs: Seq<ConfigView>)
    ensures
        (first_failed_group(group_keys(cs), cs) is Some) == exists|x: ConfigView, y: ConfigView|
            cs.contains(x) && cs.contains(y) && x.input_name == y.input_name && #[trigger] members_disagree(x, y),
{
    let keys = group_keys(cs);
    lemma_group_keys(cs);
    lemma_first_failed(keys, cs);
    if first_failed_group(keys, cs) is Some {
        let i = choose|i: int| 0 <= i < keys.len() && !(spec_merge_group(#[trigger] keys[i], group_members(cs, keys[i])) is Merged);
        let k = keys[i];
        let gm = group_members(cs, k);
        lemma_group_members(cs, k);
        assert(keys.contains(k));
        lemma_merge_group_conflicts(k, gm);
        let (a, b) = choose|a: int, b: int| 0 <= a < gm.len() && 0 <= b < gm.len() && members_disagree(#[trigger] gm[a], #[trigger] gm[b]);
        assert(gm.contains(gm[a]));
        assert(gm.contains(gm[b]));
        assert(members_disagree(gm[a], gm[b]));
    }
    if exists|x: ConfigView, y: ConfigView| cs.contains(x) && cs.contains(y) && x.input_name == y.input_name && #[trigger] members_disagree(x, y) {
        let (x, y) = choose|x: ConfigView, y: ConfigView| cs.contains(x) && cs.contains(y) && x.input_name == y.input_name && #[trigger] members_disagree(x, y);
        let k = x.input_name;
        let gm = group_members(cs, k);
        lemma_group_members(cs, k);
        assert(gm.contains(x));
        assert(gm.contains(y));
        let a = choose|a: int| 0 <= a < gm.len() && gm[a] == x;
        let b = choose|b: int| 0 <= b < gm.len() && gm[b] == y;
        lemma_merge_group_conflicts(k, gm);
        assert(members_disagree(gm[a], gm[b]));
        let n = choose|n: int| 0 <= n < cs.len() && cs[n] == x;
        assert(input_names(cs)[n] == k);
        assert(input_names(cs).contains(k));
        let i = choose|i: int| 0 <= i < keys.len() && keys[i] == k;
        assert(!(spec_merge_group(keys[i], group_members(cs, keys[i])) is Merged));
    }
}

} // verus!
