//! Version gates: normalising package versions and matching them against
//! constraints such as `< 7.0.8` or `>= 7.0.6, < 7.0.8`.
use crate::config::{opt_text, ConstraintView, VersionConstraint};
use crate::error::{join3, join5, join6, Error};
use crate::text::{
    texts,
    chars_of, has_char, has_prefix, join, join_strings, lemma_split_char_concat,
    lemma_split_char_none, owned, push_char, split_char, string_of, string_of_range,
    strip_prefix, trim, trim_bounds, trim_start, trim_text, white_space, trim_end, is_white_space,
    lemma_trim_idempotent, lemma_trim_lacks, lemma_split_char_pieces, lemma_trim_end_shape,
};
use vstd::prelude::*;

verus! {

/// A release version `major.minor.patch`.
#[derive(PartialEq, Eq, Structural)]
pub struct SemVer {
    pub major: u64,
    pub minor: u64,
    pub patch: u64,
}

/// Lexicographic order on versions.
pub open spec fn semver_lt(a: SemVer, b: SemVer) -> bool {
    ||| a.major < b.major
    ||| a.major == b.major && a.minor < b.minor
    ||| a.major == b.major && a.minor == b.minor && a.patch < b.patch
}

/// A range operator of a version comparator.
#[derive(PartialEq, Eq, Structural, Clone, Copy)]
pub enum RangeOp {
    Less,
    LessEq,
    Greater,
    GreaterEq,
    Tilde,
    Caret,
}

/// Whether `v` satisfies the comparator `op bound` (both release versions),
/// following the semantics of Cargo-style version requirements.
pub open spec fn spec_comparator_matches(op: RangeOp, bound: SemVer, v: SemVer) -> bool {
    match op {
        RangeOp::Less => semver_lt(v, bound),
        RangeOp::LessEq => v == bound || semver_lt(v, bound),
        RangeOp::Greater => semver_lt(bound, v),
        RangeOp::GreaterEq => v == bound || semver_lt(bound, v),
        RangeOp::Tilde => v.major == bound.major && v.minor == bound.minor && v.patch >= bound.patch,
        RangeOp::Caret => if bound.major > 0 {
            v.major == bound.major && (v.minor > bound.minor || v.minor == bound.minor && v.patch
                >= bound.patch)
        } else if bound.minor > 0 {
            v.major == 0 && v.minor == bound.minor && v.patch >= bound.patch
        } else {
            v.major == 0 && v.minor == 0 && v.patch == bound.patch
        },
    }
}

/// Whether a `semver::Comparator` with full `major.minor.patch` and no
/// pre-release accepts a release version.
///
/// Calls `semver::Comparator::matches`. Claimed: for a comparator and a
/// version without pre-release parts, the result is the comparison that
/// `semver`'s `eval.rs` performs for the operator (`matches_exact`,
/// `matches_greater`, `matches_less`, `matches_tilde`, `matches_caret`),
/// as `spec_comparator_matches` writes it out.
#[verifier::external_body]
fn comparator_matches(op: RangeOp, bound: &SemVer, v: &SemVer) -> (r: bool)
    ensures
        r == spec_comparator_matches(op, *bound, *v),
{
    let op = match op {
        RangeOp::Less => semver::Op::Less,
        RangeOp::LessEq => semver::Op::LessEq,
        RangeOp::Greater => semver::Op::Greater,
        RangeOp::GreaterEq => semver::Op::GreaterEq,
        RangeOp::Tilde => semver::Op::Tilde,
        RangeOp::Caret => semver::Op::Caret,
    };
    let pre = semver::Prerelease::EMPTY;
    let c = semver::Comparator { op, major: bound.major, minor: Some(bound.minor), patch: Some(bound.patch), pre };
    c.matches(&semver::Version::new(v.major, v.minor, v.patch))
}

/// An ASCII decimal digit.
pub open spec fn is_digit(c: char) -> bool {
    '0' <= c <= '9'
}

/// A non-empty run of ASCII digits.
pub open spec fn is_digit_run(s: Seq<char>) -> bool {
    s.len() > 0 && forall|i: int| 0 <= i < s.len() ==> is_digit(#[trigger] s[i])
}

/// The number a run of ASCII digits denotes.
pub open spec fn decimal_value(s: Seq<char>) -> nat
    decreases s.len(),
{
    if s.len() == 0 {
        0
    } else {
        decimal_value(s.drop_last()) * 10 + ((s.last() as int - '0' as int) as nat)
    }
}

/// A version component that `semver` accepts: no leading zero and small
/// enough for `u64`.
pub open spec fn valid_component(s: Seq<char>) -> bool {
    !(s.len() > 1 && s[0] == '0') && decimal_value(s) <= u64::MAX
}

/// The text `p0.p1.p2`.
pub open spec fn dotted(p0: Seq<char>, p1: Seq<char>, p2: Seq<char>) -> Seq<char> {
    p0 + seq!['.'] + p1 + seq!['.'] + p2
}

/// The message `semver` gives for a version text it refuses.
pub uninterp spec fn semver_version_error(text: Seq<char>) -> Seq<char>;

/// Parses a version text made of three dot-separated digit runs.
///
/// Calls `semver::Version::parse`. Claimed, for such texts: it succeeds
/// exactly when every component has no leading zero and fits in `u64`
/// (`numeric_identifier` in `semver`'s `parse.rs`), the components are the
/// decimal values, and a refusal's message is a function of the text.
#[verifier::external_body]
fn parse_semver(text: &str) -> (r: Result<SemVer, String>)
    requires
        split_char(text@, '.').len() == 3,
        forall|i: int| 0 <= i < 3 ==> is_digit_run(#[trigger] split_char(text@, '.')[i]),
    ensures
        ({
            let p = split_char(text@, '.');
            match r {
                Ok(v) => valid_component(p[0]) && valid_component(p[1]) && valid_component(p[2])
                    && v.major == decimal_value(p[0]) && v.minor == decimal_value(p[1]) && v.patch
                    == decimal_value(p[2]),
                Err(e) => !(valid_component(p[0]) && valid_component(p[1]) && valid_component(p[2]))
                    && e@ == semver_version_error(text@),
            }
        }),
{
    match semver::Version::parse(text) {
        Ok(v) => Ok(SemVer { major: v.major, minor: v.minor, patch: v.patch }),
        Err(e) => Err(e.to_string()),
    }
}

/// The length of the run of digits and dots at the front of `s`.
pub open spec fn numeric_len(s: Seq<char>, i: int) -> int
    decreases s.len() - i,
{
    if i < 0 {
        0
    } else if i >= s.len() || !(is_digit(s[i]) || s[i] == '.') {
        i
    } else {
        numeric_len(s, i + 1)
    }
}

/// The digit runs of a text of digits and dots, in order (the non-empty
/// pieces between its dots).
pub open spec fn digit_runs(s: Seq<char>) -> Seq<Seq<char>>
    decreases s.len(),
{
    if s.len() == 0 {
        seq![]
    } else if s[0] == '.' {
        digit_runs(s.drop_first())
    } else {
        let n = run_end(s, 0);
        if 0 < n <= s.len() {
            seq![s.subrange(0, n)] + digit_runs(s.subrange(n, s.len() as int))
        } else {
            seq![]
        }
    }
}

/// The position of the first dot at or after `i`, or the length.
pub open spec fn run_end(s: Seq<char>, i: int) -> int
    decreases s.len() - i,
{
    if i < 0 {
        0
    } else if i >= s.len() || s[i] == '.' {
        i
    } else {
        run_end(s, i + 1)
    }
}

/// At most three components, padded with `0` to exactly three.
pub open spec fn three_components(runs: Seq<Seq<char>>) -> Seq<Seq<char>> {
    let kept = if runs.len() > 3 { runs.subrange(0, 3) } else { runs };
    kept + Seq::new((3 - kept.len()) as nat, |i: int| seq!['0'])
}

/// How a raw version text is read: its first word's leading digits and dots,
/// as three components.
pub open spec fn normalized_components(raw: Seq<char>) -> Seq<Seq<char>> {
    let t = trim_start(raw);
    three_components(digit_runs(t.subrange(0, numeric_len(t, 0))))
}

/// The normalised text of a raw version.
pub open spec fn normalized_text(raw: Seq<char>) -> Seq<char> {
    let p = normalized_components(raw);
    dotted(p[0], p[1], p[2])
}

/// The version that a raw version text denotes, or the message of the
/// configuration error that refuses it.
pub open spec fn spec_normalize_version(raw: Seq<char>) -> Result<SemVer, Seq<char>> {
    let t = trim_start(raw);
    let n = numeric_len(t, 0);
    let p = normalized_components(raw);
    if t.len() == 0 {
        Err("empty version"@)
    } else if n == 0 {
        Err("invalid version '"@ + raw + "'"@)
    } else if valid_component(p[0]) && valid_component(p[1]) && valid_component(p[2]) {
        Ok(SemVer { major: decimal_value(p[0]) as u64, minor: decimal_value(p[1]) as u64, patch: decimal_value(p[2]) as u64 })
    } else {
        Err("invalid version '"@ + raw + "' normalized as '"@ + normalized_text(raw) + "': "@
            + semver_version_error(normalized_text(raw)))
    }
}

proof fn lemma_numeric_len_all(s: Seq<char>, i: int)
    requires
        0 <= i <= s.len(),
        forall|k: int| 0 <= k < s.len() ==> is_digit(#[trigger] s[k]) || s[k] == '.',
    ensures
        numeric_len(s, i) == s.len(),
    decreases s.len() - i,
{
    if i < s.len() {
        lemma_numeric_len_all(s, i + 1);
    }
}

proof fn lemma_run_end_digits(x: Seq<char>, y: Seq<char>, i: int)
    requires
        is_digit_run(x),
        0 <= i <= x.len(),
    ensures
        run_end(x + seq!['.'] + y, i) == x.len(),
    decreases x.len() - i,
{
    let s = x + seq!['.'] + y;
    if i < x.len() {
        assert(s[i] == x[i]);
        assert(is_digit(x[i]));
        lemma_run_end_digits(x, y, i + 1);
    } else {
        assert(s[x.len() as int] == '.');
    }
}

proof fn lemma_run_end_whole(x: Seq<char>, i: int)
    requires
        is_digit_run(x),
        0 <= i <= x.len(),
    ensures
        run_end(x, i) == x.len(),
    decreases x.len() - i,
{
    if i < x.len() {
        assert(is_digit(x[i]));
        lemma_run_end_whole(x, i + 1);
    }
}

proof fn lemma_digit_runs_step(x: Seq<char>, y: Seq<char>)
    requires
        is_digit_run(x),
    ensures
        digit_runs(x + seq!['.'] + y) == seq![x] + digit_runs(y),
{
    let s = x + seq!['.'] + y;
    assert(is_digit(x[0]));
    assert(s[0] == x[0]);
    lemma_run_end_digits(x, y, 0);
    assert(s.subrange(0, x.len() as int) =~= x);
    let rest = s.subrange(x.len() as int, s.len() as int);
    assert(rest[0] == '.');
    assert(rest.drop_first() =~= y);
    assert(digit_runs(rest) == digit_runs(y));
    assert(s[0] != '.');
    assert(0 < run_end(s, 0) <= s.len());
    assert(digit_runs(s) == seq![s.subrange(0, run_end(s, 0))] + digit_runs(s.subrange(run_end(s, 0), s.len() as int)));
}

proof fn lemma_digit_runs_one(x: Seq<char>)
    requires
        is_digit_run(x),
    ensures
        digit_runs(x) == seq![x],
{
    assert(is_digit(x[0]));
    lemma_run_end_whole(x, 0);
    assert(x.subrange(0, x.len() as int) =~= x);
    assert(x.subrange(x.len() as int, x.len() as int) =~= Seq::<char>::empty());
    assert(digit_runs(Seq::<char>::empty()) == Seq::<Seq<char>>::empty());
    assert(seq![x] + Seq::<Seq<char>>::empty() =~= seq![x]);
}

/// A version written `major.minor.patch` in digits, each component without a
/// leading zero and within `u64`, denotes exactly those three numbers.
pub proof fn lemma_normalize_dotted(a: Seq<char>, b: Seq<char>, c: Seq<char>)
    requires
        is_digit_run(a),
        is_digit_run(b),
        is_digit_run(c),
        valid_component(a),
        valid_component(b),
        valid_component(c),
    ensures
        spec_normalize_version(dotted(a, b, c)) == Ok::<SemVer, Seq<char>>(SemVer {
            major: decimal_value(a) as u64,
            minor: decimal_value(b) as u64,
            patch: decimal_value(c) as u64,
        }),
{
    let raw = dotted(a, b, c);
    assert(raw[0] == a[0]);
    assert(is_digit(a[0]));
    assert(!is_white_space(raw[0]));
    assert(trim_start(raw) == raw);
    assert forall|k: int| 0 <= k < raw.len() implies is_digit(#[trigger] raw[k]) || raw[k] == '.' by {
        if k < a.len() {
            assert(raw[k] == a[k]);
        } else if k == a.len() {
        } else if k < a.len() + 1 + b.len() {
            assert(raw[k] == b[k - a.len() - 1]);
        } else if k == a.len() + 1 + b.len() {
        } else {
            assert(raw[k] == c[k - a.len() - 2 - b.len()]);
        }
    }
    lemma_numeric_len_all(raw, 0);
    assert(raw.subrange(0, raw.len() as int) =~= raw);
    let bc = b + seq!['.'] + c;
    assert(raw =~= a + seq!['.'] + bc);
    lemma_digit_runs_step(a, bc);
    lemma_digit_runs_step(b, c);
    lemma_digit_runs_one(c);
    assert(digit_runs(raw) =~= seq![a, b, c]);
    let runs = seq![a, b, c];
    assert(three_components(runs) =~= runs);
}

proof fn lemma_numeric_len(s: Seq<char>, i: int)
    requires
        0 <= i <= s.len(),
    ensures
        i <= numeric_len(s, i) <= s.len(),
        forall|k: int| i <= k < numeric_len(s, i) ==> is_digit(#[trigger] s[k]) || s[k] == '.',
        numeric_len(s, i) < s.len() ==> !(is_digit(s[numeric_len(s, i)]) || s[numeric_len(s, i)] == '.'),
    decreases s.len() - i,
{
    if i < s.len() && (is_digit(s[i]) || s[i] == '.') {
        lemma_numeric_len(s, i + 1);
    }
}

proof fn lemma_run_end(s: Seq<char>, i: int)
    requires
        0 <= i <= s.len(),
    ensures
        i <= run_end(s, i) <= s.len(),
        forall|k: int| i <= k < run_end(s, i) ==> s[k] != '.',
        run_end(s, i) < s.len() ==> s[run_end(s, i)] == '.',
    decreases s.len() - i,
{
    if i < s.len() && s[i] != '.' {
        lemma_run_end(s, i + 1);
    }
}

/// The digit runs of a text of digits and dots, in order.
fn digit_runs_of(v: &Vec<char>, from: usize, to: usize) -> (r: Vec<Vec<char>>)
    requires
        from <= to <= v@.len(),
        forall|k: int| from <= k < to ==> is_digit(#[trigger] v@[k]) || v@[k] == '.',
    ensures
        r@.map_values(|x: Vec<char>| x@) == digit_runs(v@.subrange(from as int, to as int)),
        forall|j: int| 0 <= j < r@.len() ==> is_digit_run(#[trigger] r@[j]@),
{
    let mut out: Vec<Vec<char>> = Vec::new();
    let mut i: usize = from;
    let ghost all = v@.subrange(from as int, to as int);
    while i < to
        invariant
            from <= i <= to <= v@.len(),
            all == v@.subrange(from as int, to as int),
            forall|k: int| from <= k < to ==> is_digit(#[trigger] v@[k]) || v@[k] == '.',
            out@.map_values(|x: Vec<char>| x@) + digit_runs(v@.subrange(i as int, to as int))
                == digit_runs(all),
            forall|j: int| 0 <= j < out@.len() ==> is_digit_run(#[trigger] out@[j]@),
        decreases to - i,
    {
        let ghost rest = v@.subrange(i as int, to as int);
        if v[i] == '.' {
            assert(rest.drop_first() =~= v@.subrange(i + 1, to as int));
            i = i + 1;
        } else {
            let mut j: usize = i;
            while j < to && v[j] != '.'
                invariant
                    i <= j <= to <= v@.len(),
                    rest == v@.subrange(i as int, to as int),
                    run_end(rest, 0) == run_end(rest, j - i),
                decreases to - j,
            {
                j = j + 1;
            }
            proof {
                lemma_run_end(rest, 0);
                assert(run_end(rest, (j - i) as int) == j - i);
            }
            let mut piece: Vec<char> = Vec::new();
            let mut k: usize = i;
            while k < j
                invariant
                    i <= k <= j <= to <= v@.len(),
                    piece@ == v@.subrange(i as int, k as int),
                decreases j - k,
            {
                piece.push(v[k]);
                k = k + 1;
            }
            proof {
                assert(rest.subrange(0, (j - i) as int) =~= piece@);
                assert(rest.subrange((j - i) as int, rest.len() as int) =~= v@.subrange(j as int, to as int));
                assert forall|m: int| 0 <= m < piece@.len() implies is_digit(#[trigger] piece@[m]) by {
                    assert(piece@[m] == v@[i + m]);
                }
            }
            let ghost before = out@.map_values(|x: Vec<char>| x@);
            out.push(piece);
            assert(out@.map_values(|x: Vec<char>| x@) =~= before.push(v@.subrange(i as int, j as int)));
            i = j;
        }
    }
    assert(v@.subrange(i as int, to as int) =~= Seq::<char>::empty());
    out
}

/// The three components of the digits-and-dots text `v[from..to]`.
fn version_components(v: &Vec<char>, from: usize, to: usize) -> (parts: Vec<String>)
    requires
        from <= to <= v@.len(),
        forall|k: int| from <= k < to ==> is_digit(#[trigger] v@[k]) || v@[k] == '.',
    ensures
        parts@.len() == 3,
        texts(parts@) == three_components(digit_runs(v@.subrange(from as int, to as int))),
        forall|j: int| 0 <= j < 3 ==> is_digit_run(#[trigger] parts@[j]@),
{
    let runs = digit_runs_of(v, from, to);
    let ghost runs_view = runs@.map_values(|x: Vec<char>| x@);
    let ghost comps = three_components(runs_view);
    let mut parts: Vec<String> = Vec::new();
    let mut i: usize = 0;
    while i < 3
        invariant
            i <= 3,
            runs_view == runs@.map_values(|x: Vec<char>| x@),
            comps == three_components(runs_view),
            forall|j: int| 0 <= j < runs@.len() ==> is_digit_run(#[trigger] runs@[j]@),
            parts@.len() == i,
            forall|j: int| 0 <= j < i ==> #[trigger] parts@[j]@ == comps[j],
        decreases 3 - i,
    {
        if i < runs.len() {
            assert(comps[i as int] == runs_view[i as int]);
            parts.push(string_of(runs[i].as_slice()));
        } else {
            assert(comps[i as int] == seq!['0']);
            let zero = owned("0");
            proof {
                reveal_strlit("0");
            }
            parts.push(zero);
        }
        i = i + 1;
    }
    assert(texts(parts@) =~= comps);
    proof {
        assert forall|j: int| 0 <= j < 3 implies is_digit_run(#[trigger] parts@[j]@) by {
            if j < runs_view.len() {
                assert(comps[j] == runs@[j]@);
            } else {
                assert(comps[j] == seq!['0']);
                assert(is_digit('0'));
            }
        }
    }
    parts
}

/// Three digit runs joined with dots.
fn dotted_text(parts: &Vec<String>) -> (r: String)
    requires
        parts@.len() == 3,
        forall|j: int| 0 <= j < 3 ==> is_digit_run(#[trigger] parts@[j]@),
    ensures
        r@ == dotted(parts@[0]@, parts@[1]@, parts@[2]@),
        split_char(r@, '.') == texts(parts@),
{
    let normalized = join_strings(parts, ".");
    proof {
        reveal_strlit(".");
        let p = texts(parts@);
        assert(p.subrange(0, 2).drop_last() =~= p.subrange(0, 1));
        assert(join(p.subrange(0, 1), "."@) == p[0]);
        assert(join(p.subrange(0, 2), "."@) == p[0] + "."@ + p[1]);
        assert(p.drop_last() =~= p.subrange(0, 2));
        assert(normalized@ == p[0] + seq!['.'] + p[1] + seq!['.'] + p[2]);
        assert forall|j: int| 0 <= j < 3 implies !has_char(#[trigger] p[j], '.') by {
            if has_char(p[j], '.') {
                let m = choose|m: int| 0 <= m < p[j].len() && p[j][m] == '.';
                assert(is_digit(p[j][m]));
            }
        }
        lemma_split_char_none(p[2], '.');
        lemma_split_char_concat(p[1], p[2], '.');
        assert(p[0] + seq!['.'] + p[1] + seq!['.'] + p[2] =~= p[0] + seq!['.'] + (p[1] + seq!['.'] + p[2]));
        lemma_split_char_concat(p[0], p[1] + seq!['.'] + p[2], '.');
        assert(split_char(normalized@, '.') =~= p);
    }
    normalized
}

/// The version a raw version text denotes: the leading digits and dots of
/// its first word, as at most three components padded with zeros.
pub fn normalize_version(raw: &str) -> (r: Result<SemVer, Error>)
    ensures
        match r {
            Ok(v) => spec_normalize_version(raw@) == Ok::<SemVer, Seq<char>>(v),
            Err(e) => e matches Error::Config(m) && spec_normalize_version(raw@) == Err::<SemVer, Seq<char>>(m@),
        },
{
    let v = chars_of(raw);
    let (a, _b) = trim_bounds(&v);
    let ghost t = trim_start(raw@);
    if a == v.len() {
        assert(t.len() == 0);
        return Err(Error::Config(owned("empty version")));
    }
    let mut n: usize = a;
    while n < v.len() && ((v[n] >= '0' && v[n] <= '9') || v[n] == '.')
        invariant
            a <= n <= v@.len(),
            t == v@.subrange(a as int, v@.len() as int),
            numeric_len(t, 0) == numeric_len(t, n - a),
        decreases v@.len() - n,
    {
        n = n + 1;
    }
    proof {
        lemma_numeric_len(t, 0);
        assert(numeric_len(t, (n - a) as int) == n - a);
    }
    if n == a {
        return Err(Error::Config(join3("invalid version '", raw, "'")));
    }
    proof {
        assert forall|k: int| a <= k < n implies is_digit(#[trigger] v@[k]) || v@[k] == '.' by {
            assert(v@[k] == t[k - a]);
        }
        assert(t.subrange(0, (n - a) as int) =~= v@.subrange(a as int, n as int));
    }
    let parts = version_components(&v, a, n);
    let normalized = dotted_text(&parts);
    match parse_semver(normalized.as_str()) {
        Ok(version) => Ok(version),
        Err(e) => Err(Error::Config(join6(
            "invalid version '",
            raw,
            "' normalized as '",
            normalized.as_str(),
            "': ",
            e.as_str(),
        ))),
    }
}

/// The operator at the front of a version constraint.
#[derive(PartialEq, Eq, Structural, Clone, Copy)]
pub enum Operator {
    NotEq,
    LessEq,
    GreaterEq,
    Eq,
    Less,
    Greater,
    Tilde,
    Caret,
}

/// How an operator is written.
pub open spec fn operator_text(op: Operator) -> Seq<char> {
    match op {
        Operator::NotEq => "!="@,
        Operator::LessEq => "<="@,
        Operator::GreaterEq => ">="@,
        Operator::Eq => "="@,
        Operator::Less => "<"@,
        Operator::Greater => ">"@,
        Operator::Tilde => "~"@,
        Operator::Caret => "^"@,
    }
}

/// The operators in the order they are tried: longer spellings before the
/// shorter ones they begin with.
pub open spec fn operator_order() -> Seq<Operator> {
    seq![Operator::NotEq, Operator::LessEq, Operator::GreaterEq, Operator::Eq, Operator::Less,
        Operator::Greater, Operator::Tilde, Operator::Caret]
}

/// The first operator from position `i` of the order that the text starts with.
pub open spec fn first_operator_from(t: Seq<char>, i: int) -> Option<Operator>
    decreases 8 - i,
{
    if i < 0 || i >= 8 {
        None
    } else if has_prefix(t, operator_text(operator_order()[i])) {
        Some(operator_order()[i])
    } else {
        first_operator_from(t, i + 1)
    }
}

/// A constraint split into its operator and its trimmed operand.
pub open spec fn spec_split_operator(e: Seq<char>) -> (Option<Operator>, Seq<char>) {
    let t = trim(e);
    match first_operator_from(t, 0) {
        Some(op) => (Some(op), trim(t.subrange(operator_text(op).len() as int, t.len() as int))),
        None => (None, t),
    }
}

/// The text of an operator.
fn operator_str(op: Operator) -> (r: &'static str)
    ensures
        r@ == operator_text(op),
{
    match op {
        Operator::NotEq => "!=",
        Operator::LessEq => "<=",
        Operator::GreaterEq => ">=",
        Operator::Eq => "=",
        Operator::Less => "<",
        Operator::Greater => ">",
        Operator::Tilde => "~",
        Operator::Caret => "^",
    }
}

/// Splits a constraint into its operator (if it starts with one) and the
/// trimmed remainder.
pub fn split_operator(expression: &str) -> (r: (Option<Operator>, String))
    ensures
        r.0 == spec_split_operator(expression@).0,
        r.1@ == spec_split_operator(expression@).1,
{
    let t = trim_text(expression);
    let order: [Operator; 8] = [Operator::NotEq, Operator::LessEq, Operator::GreaterEq,
        Operator::Eq, Operator::Less, Operator::Greater, Operator::Tilde, Operator::Caret];
    assert(order@ == operator_order());
    let mut i: usize = 0;
    while i < 8
        invariant
            i <= 8,
            order@ == operator_order(),
            t@ == trim(expression@),
            first_operator_from(t@, 0) == first_operator_from(t@, i as int),
        decreases 8 - i,
    {
        let op = order[i];
        if let Some(rest) = strip_prefix(t.as_str(), operator_str(op)) {
            return (Some(op), trim_text(rest.as_str()));
        }
        i = i + 1;
    }
    (None, t)
}

/// Evaluates one constraint part against a version.
pub open spec fn spec_matches_single(v: SemVer, part: Seq<char>) -> Result<bool, Seq<char>> {
    let (op, operand) = spec_split_operator(part);
    match spec_normalize_version(operand) {
        Err(m) => Err(m),
        Ok(b) => Ok(match op {
            None => v == b,
            Some(Operator::Eq) => v == b,
            Some(Operator::NotEq) => v != b,
            Some(Operator::Less) => spec_comparator_matches(RangeOp::Less, b, v),
            Some(Operator::LessEq) => spec_comparator_matches(RangeOp::LessEq, b, v),
            Some(Operator::Greater) => spec_comparator_matches(RangeOp::Greater, b, v),
            Some(Operator::GreaterEq) => spec_comparator_matches(RangeOp::GreaterEq, b, v),
            Some(Operator::Tilde) => spec_comparator_matches(RangeOp::Tilde, b, v),
            Some(Operator::Caret) => spec_comparator_matches(RangeOp::Caret, b, v),
        }),
    }
}

/// The operator of a part is read from the start of its trimmed text, the
/// two-character spellings before the one-character ones they begin with:
/// `<=` is never read as `<`, nor `>=` as `>`, and a part that starts with
/// no operator is an exact version.
pub proof fn lemma_operator_spelling(p: Seq<char>)
    ensures
        ({
            let t = trim(p);
            let op = spec_split_operator(p).0;
            &&& t.len() >= 2 && t[0] == '!' && t[1] == '=' ==> op == Some(Operator::NotEq)
            &&& t.len() >= 2 && t[0] == '<' && t[1] == '=' ==> op == Some(Operator::LessEq)
            &&& t.len() >= 2 && t[0] == '>' && t[1] == '=' ==> op == Some(Operator::GreaterEq)
            &&& t.len() >= 1 && t[0] == '<' && !(t.len() >= 2 && t[1] == '=') ==> op == Some(Operator::Less)
            &&& t.len() >= 1 && t[0] == '>' && !(t.len() >= 2 && t[1] == '=') ==> op == Some(Operator::Greater)
            &&& t.len() >= 1 && t[0] == '=' ==> op == Some(Operator::Eq)
            &&& t.len() >= 1 && t[0] == '~' ==> op == Some(Operator::Tilde)
            &&& t.len() >= 1 && t[0] == '^' ==> op == Some(Operator::Caret)
            &&& (t.len() == 0 || !(t[0] == '!' && t.len() >= 2 && t[1] == '=') && t[0] != '<' && t[0] != '>' && t[0] != '='
                && t[0] != '~' && t[0] != '^') ==> op is None
            &&& op matches Some(o) ==> spec_split_operator(p).1 == trim(t.subrange(operator_text(o).len() as int, t.len() as int))
        }),
{
    reveal_strlit("!=");
    reveal_strlit("<=");
    reveal_strlit(">=");
    reveal_strlit("=");
    reveal_strlit("<");
    reveal_strlit(">");
    reveal_strlit("~");
    reveal_strlit("^");
    let t = trim(p);
    reveal_with_fuel(first_operator_from, 9);
    lemma_prefix_two(t, '!', '=');
    lemma_prefix_two(t, '<', '=');
    lemma_prefix_two(t, '>', '=');
    lemma_prefix_one(t, '=');
    lemma_prefix_one(t, '<');
    lemma_prefix_one(t, '>');
    lemma_prefix_one(t, '~');
    lemma_prefix_one(t, '^');
    assert(operator_text(Operator::NotEq) == seq!['!', '=']);
    assert(operator_text(Operator::LessEq) == seq!['<', '=']);
    assert(operator_text(Operator::GreaterEq) == seq!['>', '=']);
    assert(operator_text(Operator::Eq) == seq!['=']);
    assert(operator_text(Operator::Less) == seq!['<']);
    assert(operator_text(Operator::Greater) == seq!['>']);
    assert(operator_text(Operator::Tilde) == seq!['~']);
    assert(operator_text(Operator::Caret) == seq!['^']);
}

proof fn lemma_prefix_two(t: Seq<char>, a: char, b: char)
    ensures
        has_prefix(t, seq![a, b]) == (t.len() >= 2 && t[0] == a && t[1] == b),
{
    if t.len() >= 2 {
        assert(t.subrange(0, 2) =~= seq![t[0], t[1]]);
        if has_prefix(t, seq![a, b]) {
            assert(t.subrange(0, 2)[0] == a);
        }
    }
}

proof fn lemma_prefix_one(t: Seq<char>, a: char)
    ensures
        has_prefix(t, seq![a]) == (t.len() >= 1 && t[0] == a),
{
    if t.len() >= 1 {
        assert(t.subrange(0, 1) =~= seq![t[0]]);
        if has_prefix(t, seq![a]) {
            assert(t.subrange(0, 1)[0] == a);
        }
    }
}

/// What an operator asks of a version `v` against a bound `b`: equality
/// for none or `=`, inequality for `!=`, the strict and non-strict orders
/// for `<`, `<=`, `>`, `>=`, and the same-minor and compatible ranges for
/// `~` and `^`.
pub open spec fn operator_holds(op: Option<Operator>, b: SemVer, v: SemVer) -> bool {
    match op {
        None => v == b,
        Some(Operator::Eq) => v == b,
        Some(Operator::NotEq) => v != b,
        Some(Operator::Less) => semver_lt(v, b),
        Some(Operator::LessEq) => v == b || semver_lt(v, b),
        Some(Operator::Greater) => semver_lt(b, v),
        Some(Operator::GreaterEq) => v == b || semver_lt(b, v),
        Some(Operator::Tilde) => v.major == b.major && v.minor == b.minor && v.patch >= b.patch,
        Some(Operator::Caret) => spec_comparator_matches(RangeOp::Caret, b, v),
    }
}

/// A part matches a version exactly as its operator says of the operand's
/// version (and is refused when the operand is not a version). In
/// particular `<=` and `>=` accept the bound itself while `<` and `>`
/// refuse it, and `<= x` holds exactly when `< x` or `= x` does.
pub proof fn lemma_operator_meaning(v: SemVer, p: Seq<char>)
    ensures
        match spec_normalize_version(spec_split_operator(p).1) {
            Err(m) => spec_matches_single(v, p) == Err::<bool, Seq<char>>(m),
            Ok(b) => spec_matches_single(v, p) == Ok::<bool, Seq<char>>(operator_holds(spec_split_operator(p).0, b, v)),
        },
        forall|b: SemVer| operator_holds(Some(Operator::LessEq), b, b) && operator_holds(Some(Operator::GreaterEq), b, b)
            && !operator_holds(Some(Operator::Less), b, b) && !operator_holds(Some(Operator::Greater), b, b),
        forall|b: SemVer, w: SemVer| operator_holds(Some(Operator::LessEq), b, w) == (operator_holds(Some(Operator::Less), b, w)
            || operator_holds(Some(Operator::Eq), b, w)),
        forall|b: SemVer, w: SemVer| operator_holds(Some(Operator::GreaterEq), b, w) == (operator_holds(Some(Operator::Greater), b, w)
            || operator_holds(Some(Operator::Eq), b, w)),
{
    assert forall|b: SemVer| !semver_lt(b, b) by {}
}

fn matches_single_constraint(version: &SemVer, expression: &str) -> (r: Result<bool, Error>)
    ensures
        match r {
            Ok(b) => spec_matches_single(*version, expression@) == Ok::<bool, Seq<char>>(b),
            Err(e) => e matches Error::Config(m) && spec_matches_single(*version, expression@)
                == Err::<bool, Seq<char>>(m@),
        },
        spec_normalize_version(spec_split_operator(expression@).1) matches Ok(b) ==> (r matches Ok(x) && x == operator_holds(
            spec_split_operator(expression@).0,
            b,
            *version,
        )),
{
    proof {
        lemma_operator_meaning(*version, expression@);
    }
    let (op, operand) = split_operator(expression);
    let bound = normalize_version(operand.as_str())?;
    match op {
        None => Ok(*version == bound),
        Some(Operator::Eq) => Ok(*version == bound),
        Some(Operator::NotEq) => Ok(*version != bound),
        Some(Operator::Less) => Ok(comparator_matches(RangeOp::Less, &bound, version)),
        Some(Operator::LessEq) => Ok(comparator_matches(RangeOp::LessEq, &bound, version)),
        Some(Operator::Greater) => Ok(comparator_matches(RangeOp::Greater, &bound, version)),
        Some(Operator::GreaterEq) => Ok(comparator_matches(RangeOp::GreaterEq, &bound, version)),
        Some(Operator::Tilde) => Ok(comparator_matches(RangeOp::Tilde, &bound, version)),
        Some(Operator::Caret) => Ok(comparator_matches(RangeOp::Caret, &bound, version)),
    }
}

/// The parts of a constraint: the comma-separated pieces, trimmed, empty
/// ones dropped.
pub open spec fn constraint_parts(e: Seq<char>) -> Seq<Seq<char>> {
    keep_trimmed(split_char(e, ','))
}

/// The trimmed pieces that are not empty, in order.
pub open spec fn keep_trimmed(pieces: Seq<Seq<char>>) -> Seq<Seq<char>>
    decreases pieces.len(),
{
    if pieces.len() == 0 {
        seq![]
    } else {
        let t = trim(pieces[0]);
        (if t.len() > 0 { seq![t] } else { seq![] }) + keep_trimmed(pieces.drop_first())
    }
}

/// Evaluates constraint parts in order: the first failure or mismatch decides.
pub open spec fn spec_matches_parts(v: SemVer, parts: Seq<Seq<char>>) -> Result<bool, Seq<char>>
    decreases parts.len(),
{
    if parts.len() == 0 {
        Ok(true)
    } else {
        match spec_matches_single(v, parts[0]) {
            Err(m) => Err(m),
            Ok(false) => Ok(false),
            Ok(true) => spec_matches_parts(v, parts.drop_first()),
        }
    }
}

/// Whether a raw version satisfies a constraint expression, or the message
/// of the configuration error that refuses one of them.
pub open spec fn spec_matches_constraint(version: Seq<char>, expression: Seq<char>) -> Result<bool, Seq<char>> {
    match spec_normalize_version(version) {
        Err(m) => Err(m),
        Ok(v) => if constraint_parts(expression).len() == 0 {
            Err("empty version constraint"@)
        } else {
            spec_matches_parts(v, constraint_parts(expression))
        },
    }
}

/// A constraint is the conjunction of its parts: when every part is valid,
/// the version matches exactly when it matches every part.
pub proof fn lemma_matches_parts_conjunction(v: SemVer, parts: Seq<Seq<char>>)
    requires
        forall|i: int| 0 <= i < parts.len() ==> #[trigger] spec_matches_single(v, parts[i]) is Ok,
    ensures
        spec_matches_parts(v, parts) == Ok::<bool, Seq<char>>(
            forall|i: int| 0 <= i < parts.len() ==> #[trigger] spec_matches_single(v, parts[i]) == Ok::<bool, Seq<char>>(true),
        ),
    decreases parts.len(),
{
    if parts.len() > 0 {
        let rest = parts.drop_first();
        assert forall|i: int| 0 <= i < rest.len() implies #[trigger] spec_matches_single(v, rest[i]) is Ok by {
            assert(rest[i] == parts[i + 1]);
        }
        lemma_matches_parts_conjunction(v, rest);
        assert(spec_matches_single(v, parts[0]) is Ok);
        if spec_matches_single(v, parts[0]) == Ok::<bool, Seq<char>>(true) {
            if forall|i: int| 0 <= i < rest.len() ==> #[trigger] spec_matches_single(v, rest[i]) == Ok::<bool, Seq<char>>(true) {
                assert forall|i: int| 0 <= i < parts.len() implies #[trigger] spec_matches_single(v, parts[i]) == Ok::<bool, Seq<char>>(true) by {
                    if i > 0 {
                        assert(parts[i] == rest[i - 1]);
                    }
                }
            } else {
                let k = choose|k: int| 0 <= k < rest.len() && !(#[trigger] spec_matches_single(v, rest[k]) == Ok::<bool, Seq<char>>(true));
                assert(rest[k] == parts[k + 1]);
            }
        }
    }
}

/// `!=` negates an exact part: a part written `!= x` matches exactly when
/// the part `x` (with the same operand) does not, and both are refused
/// alike when the operand is not a version.
pub proof fn lemma_not_equal_negates(v: SemVer, p: Seq<char>, q: Seq<char>)
    requires
        spec_split_operator(p).0 == Some(Operator::NotEq),
        spec_split_operator(q).0 is None,
        spec_split_operator(p).1 == spec_split_operator(q).1,
    ensures
        match spec_matches_single(v, q) {
            Ok(b) => spec_matches_single(v, p) == Ok::<bool, Seq<char>>(!b),
            Err(m) => spec_matches_single(v, p) == Err::<bool, Seq<char>>(m),
        },
{
}

/// A version matches a constraint only through its non-blank parts: a
/// constraint with none is refused, and otherwise (for valid parts) the
/// version must match every part.
pub proof fn lemma_matches_constraint_parts(version: Seq<char>, expression: Seq<char>)
    ensures
        spec_normalize_version(version) is Ok && constraint_parts(expression).len() == 0
            ==> spec_matches_constraint(version, expression) == Err::<bool, Seq<char>>("empty version constraint"@),
        ({
            let parts = constraint_parts(expression);
            match spec_normalize_version(version) {
                Ok(v) => parts.len() > 0 && (forall|i: int| 0 <= i < parts.len() ==> #[trigger] spec_matches_single(v, parts[i]) is Ok)
                    ==> spec_matches_constraint(version, expression) == Ok::<bool, Seq<char>>(
                        forall|i: int| 0 <= i < parts.len() ==> #[trigger] spec_matches_single(v, parts[i]) == Ok::<bool, Seq<char>>(true),
                    ),
                Err(_) => true,
            }
        }),
{
    if let Ok(v) = spec_normalize_version(version) {
        let parts = constraint_parts(expression);
        if forall|i: int| 0 <= i < parts.len() ==> #[trigger] spec_matches_single(v, parts[i]) is Ok {
            lemma_matches_parts_conjunction(v, parts);
        }
    }
}

proof fn lemma_keep_trimmed_parts(ps: Seq<Seq<char>>, c: char)
    requires
        forall|j: int| 0 <= j < ps.len() ==> !has_char(#[trigger] ps[j], c),
    ensures
        forall|j: int| 0 <= j < keep_trimmed(ps).len() ==> {
            let p = #[trigger] keep_trimmed(ps)[j];
            &&& p.len() > 0
            &&& !has_char(p, c)
            &&& trim(p) == p
        },
    decreases ps.len(),
{
    if ps.len() > 0 {
        let rest = ps.drop_first();
        assert forall|j: int| 0 <= j < rest.len() implies !has_char(#[trigger] rest[j], c) by {
            assert(rest[j] == ps[j + 1]);
        }
        lemma_keep_trimmed_parts(rest, c);
        let t = trim(ps[0]);
        lemma_trim_lacks(ps[0], c);
        lemma_trim_idempotent(ps[0]);
        let head: Seq<Seq<char>> = if t.len() > 0 { seq![t] } else { seq![] };
        assert forall|j: int| 0 <= j < keep_trimmed(ps).len() implies {
            let p = #[trigger] keep_trimmed(ps)[j];
            &&& p.len() > 0
            &&& !has_char(p, c)
            &&& trim(p) == p
        } by {
            if j < head.len() {
                assert(keep_trimmed(ps)[j] == t);
            } else {
                assert(keep_trimmed(ps)[j] == keep_trimmed(rest)[j - head.len()]);
            }
        }
    }
}

proof fn lemma_part_alone(p: Seq<char>)
    requires
        p.len() > 0,
        !has_char(p, ','),
        trim(p) == p,
    ensures
        constraint_parts(p) == seq![p],
{
    lemma_split_char_none(p, ',');
    let one = seq![p];
    assert(one.drop_first() =~= Seq::<Seq<char>>::empty());
    assert(keep_trimmed(one.drop_first()) == Seq::<Seq<char>>::empty());
    assert(one[0] == p);
    assert(keep_trimmed(one) == seq![p] + Seq::<Seq<char>>::empty());
    assert(keep_trimmed(one) =~= seq![p]);
}

/// A single trimmed part without a comma, read as a whole constraint, is
/// that part alone: it matches a valid version as the part does.
pub proof fn lemma_matches_lone_part(version: Seq<char>, p: Seq<char>)
    requires
        p.len() > 0,
        !has_char(p, ','),
        trim(p) == p,
    ensures
        spec_matches_constraint(version, p) == match spec_normalize_version(version) {
            Err(m) => Err(m),
            Ok(v) => spec_matches_single(v, p),
        },
{
    lemma_part_alone(p);
    if let Ok(v) = spec_normalize_version(version) {
        assert(seq![p].drop_first() =~= Seq::<Seq<char>>::empty());
        assert(spec_matches_parts(v, seq![p].drop_first()) == Ok::<bool, Seq<char>>(true));
    }
}

/// A constraint is the conjunction of its comma-separated parts, each read
/// as a constraint of its own: for a valid version and parts that are all
/// valid, the version matches exactly when it matches every part.
pub proof fn lemma_constraint_conjunction(version: Seq<char>, expression: Seq<char>)
    ensures
        ({
            let parts = constraint_parts(expression);
            spec_normalize_version(version) is Ok && parts.len() > 0
                && (forall|i: int| 0 <= i < parts.len() ==> #[trigger] spec_matches_constraint(version, parts[i]) is Ok)
                ==> spec_matches_constraint(version, expression) == Ok::<bool, Seq<char>>(
                    forall|i: int| 0 <= i < parts.len() ==> #[trigger] spec_matches_constraint(version, parts[i]) == Ok::<bool, Seq<char>>(true),
                )
        }),
{
    let parts = constraint_parts(expression);
    lemma_split_char_pieces(expression, ',');
    lemma_keep_trimmed_parts(split_char(expression, ','), ',');
    if let Ok(v) = spec_normalize_version(version) {
        assert forall|i: int| 0 <= i < parts.len() implies #[trigger] spec_matches_constraint(version, parts[i])
            == spec_matches_single(v, parts[i]) by {
            lemma_matches_lone_part(version, parts[i]);
        }
        if parts.len() > 0 && forall|i: int| 0 <= i < parts.len() ==> #[trigger] spec_matches_constraint(version, parts[i]) is Ok {
            assert forall|i: int| 0 <= i < parts.len() implies #[trigger] spec_matches_single(v, parts[i]) is Ok by {
                assert(spec_matches_constraint(version, parts[i]) is Ok);
            }
            lemma_matches_parts_conjunction(v, parts);
            let all_c = forall|i: int| 0 <= i < parts.len() ==> #[trigger] spec_matches_constraint(version, parts[i]) == Ok::<bool, Seq<char>>(true);
            let all_s = forall|i: int| 0 <= i < parts.len() ==> #[trigger] spec_matches_single(v, parts[i]) == Ok::<bool, Seq<char>>(true);
            if all_c {
                assert forall|i: int| 0 <= i < parts.len() implies #[trigger] spec_matches_single(v, parts[i]) == Ok::<bool, Seq<char>>(true) by {
                    assert(spec_matches_constraint(version, parts[i]) == Ok::<bool, Seq<char>>(true));
                }
            }
            if all_s {
                assert forall|i: int| 0 <= i < parts.len() implies #[trigger] spec_matches_constraint(version, parts[i]) == Ok::<bool, Seq<char>>(true) by {
                    assert(spec_matches_single(v, parts[i]) == Ok::<bool, Seq<char>>(true));
                }
            }
            assert(all_c == all_s);
        }
    }
}

/// `!= x` is the negation of `x`: for version text `x` without an
/// operator, a comma or surrounding white space, a version matches `!= x`
/// exactly when it does not match `x`, and both are refused alike when the
/// version or `x` is not valid.
pub proof fn lemma_not_equal_constraint(version: Seq<char>, x: Seq<char>)
    requires
        x.len() > 0,
        trim(x) == x,
        !has_char(x, ','),
        first_operator_from(x, 0) is None,
    ensures
        match spec_matches_constraint(version, x) {
            Ok(b) => spec_matches_constraint(version, "!= "@ + x) == Ok::<bool, Seq<char>>(!b),
            Err(m) => spec_matches_constraint(version, "!= "@ + x) == Err::<bool, Seq<char>>(m),
        },
{
    reveal_strlit("!= ");
    reveal_strlit("!=");
    reveal_strlit(" ");
    let p = "!= "@ + x;
    // `x` ends with a character that is not white space.
    lemma_trim_end_shape(trim_start(x));
    assert(!is_white_space(x.last()));
    assert(!is_white_space(p[0]));
    assert(is_white_space(' '));
    assert(p.last() == x.last());
    assert(trim_start(p) == p);
    assert(trim_end(p) == p);
    assert(trim(p) == p);
    assert(!has_char(p, ',')) by {
        if has_char(p, ',') {
            let i = choose|i: int| 0 <= i < p.len() && p[i] == ',';
            if i >= 3 {
                assert(x[i - 3] == ',');
            }
        }
    }
    lemma_matches_lone_part(version, x);
    lemma_matches_lone_part(version, p);
    assert(p.subrange(0, 2) =~= "!="@);
    assert(has_prefix(p, operator_text(operator_order()[0])));
    assert(spec_split_operator(p).0 == Some(Operator::NotEq));
    let rest = p.subrange(2, p.len() as int);
    assert(rest =~= " "@ + x);
    assert(rest[0] == ' ');
    assert(rest.drop_first() =~= x);
    assert(trim_start(rest) == trim_start(x));
    assert(spec_split_operator(p).1 == x);
    assert(spec_split_operator(x) == (None::<Operator>, x));
    if let Ok(v) = spec_normalize_version(version) {
        lemma_not_equal_negates(v, p, x);
    }
}

/// The trimmed non-empty comma-separated parts of a constraint.
fn split_constraint(expression: &str) -> (r: Vec<String>)
    ensures
        texts(r@) == constraint_parts(expression@),
{
    let v = chars_of(expression);
    let mut out: Vec<String> = Vec::new();
    let mut start: usize = 0;
    let mut i: usize = 0;
    assert(v@.subrange(0, v@.len() as int) =~= v@);
    while i <= v.len()
        invariant
            v@ == expression@,
            start <= i <= v@.len(),
            forall|k: int| start <= k < i ==> v@[k] != ',',
            texts(out@) + keep_trimmed(split_char(v@.subrange(start as int, v@.len() as int), ','))
                == constraint_parts(expression@),
        decreases v@.len() + 1 - i,
    {
        if i == v.len() || v[i] == ',' {
            let piece = string_of_range(&v, start, i);
            let trimmed = trim_text(piece.as_str());
            let ghost rest = v@.subrange(start as int, v@.len() as int);
            let ghost head = v@.subrange(start as int, i as int);
            proof {
                if i < v@.len() {
                    assert(rest =~= head + seq![','] + v@.subrange(i + 1, v@.len() as int));
                    assert(!has_char(head, ','));
                    lemma_split_char_concat(head, v@.subrange(i + 1, v@.len() as int), ',');
                } else {
                    assert(rest =~= head);
                    lemma_split_char_none(rest, ',');
                }
                let pieces = split_char(rest, ',');
                assert(pieces[0] == head);
                assert(trimmed@ == trim(pieces[0]));
            }
            let ghost before = texts(out@);
            if trimmed.unicode_len() > 0 {
                out.push(trimmed);
                assert(texts(out@) =~= before.push(trimmed@));
            }
            if i == v.len() {
                proof {
                    let pieces = split_char(rest, ',');
                    assert(pieces.drop_first() =~= Seq::<Seq<char>>::empty());
                    assert(keep_trimmed(pieces.drop_first()) =~= Seq::<Seq<char>>::empty());
                    if trimmed@.len() > 0 {
                        assert(texts(out@) == before + seq![trimmed@]);
                    } else {
                        assert(texts(out@) =~= before + Seq::<Seq<char>>::empty());
                    }
                }
                assert(texts(out@) =~= constraint_parts(expression@));
                return out;
            }
            proof {
                assert(split_char(rest, ',').drop_first() == split_char(v@.subrange(i + 1, v@.len() as int), ','));
            }
            start = i + 1;
        }
        i = i + 1;
    }
    out
}

/// Whether a version satisfies a constraint expression: every
/// comma-separated part must match.
pub fn matches_constraint(version: &str, expression: &str) -> (r: Result<bool, Error>)
    ensures
        match r {
            Ok(b) => spec_matches_constraint(version@, expression@) == Ok::<bool, Seq<char>>(b),
            Err(e) => e matches Error::Config(m) && spec_matches_constraint(version@, expression@)
                == Err::<bool, Seq<char>>(m@),
        },
{
    let v = normalize_version(version)?;
    let parts = split_constraint(expression);
    if parts.len() == 0 {
        return Err(Error::Config(owned("empty version constraint")));
    }
    let mut i: usize = 0;
    assert(texts(parts@).subrange(0, parts@.len() as int) =~= texts(parts@));
    while i < parts.len()
        invariant
            i <= parts@.len(),
            texts(parts@) == constraint_parts(expression@),
            spec_normalize_version(version@) == Ok::<SemVer, Seq<char>>(v),
            spec_matches_parts(v, texts(parts@)) == spec_matches_parts(v, texts(parts@).subrange(i as int, parts@.len() as int)),
        decreases parts@.len() - i,
    {
        let ghost rest = texts(parts@).subrange(i as int, parts@.len() as int);
        assert(rest[0] == parts@[i as int]@);
        assert(rest.drop_first() =~= texts(parts@).subrange(i + 1, parts@.len() as int));
        if !matches_single_constraint(&v, parts[i].as_str())? {
            return Ok(false);
        }
        i = i + 1;
    }
    assert(texts(parts@).subrange(i as int, parts@.len() as int) =~= Seq::<Seq<char>>::empty());
    Ok(true)
}

/// The outcome of checking a version against a gate.
#[derive(Debug)]
pub struct VersionDecision {
    pub version: String,
    /// Why the version was refused; empty when it is accepted.
    pub rejected_by: Vec<String>,
}

impl VersionDecision {
    /// No rule refused the version.
    pub fn is_allowed(&self) -> (r: bool)
        ensures
            r == (self.rejected_by@.len() == 0),
    {
        self.rejected_by.len() == 0
    }
}

/// The refusals of the taints from `taints`: a message for every taint the
/// version matches, in order, or the first evaluation error.
pub open spec fn spec_taint_rejections(version: Seq<char>, taints: Seq<Seq<char>>) -> Result<Seq<Seq<char>>, Seq<char>>
    decreases taints.len(),
{
    if taints.len() == 0 {
        Ok(seq![])
    } else {
        match spec_matches_constraint(version, taints[0]) {
            Err(m) => Err(m),
            Ok(hit) => match spec_taint_rejections(version, taints.drop_first()) {
                Err(m) => Err(m),
                Ok(rest) => Ok(if hit { seq!["taint '"@ + taints[0] + "' matched"@] + rest } else { rest }),
            },
        }
    }
}

/// The refusals a gate gives a version: the target's when it does not match,
/// then the matching taints', or the first evaluation error.
pub open spec fn spec_evaluate_version_rule(version: Seq<char>, rule: ConstraintView) -> Result<Seq<Seq<char>>, Seq<char>> {
    let target = match rule.target {
        Some(t) => match spec_matches_constraint(version, t) {
            Err(m) => Err(m),
            Ok(true) => Ok(Seq::<Seq<char>>::empty()),
            Ok(false) => Ok(seq!["target '"@ + t + "' did not match"@]),
        },
        None => Ok(Seq::<Seq<char>>::empty()),
    };
    match target {
        Err(m) => Err(m),
        Ok(first) => match spec_taint_rejections(version, rule.taints) {
            Err(m) => Err(m),
            Ok(rest) => Ok(first + rest),
        },
    }
}

/// The refusal given by a taint that matched.
pub open spec fn taint_refusal(x: Seq<char>) -> Seq<char> {
    "taint '"@ + x + "' matched"@
}

/// The refusal given by a target, when it does not match.
pub open spec fn target_refusals(version: Seq<char>, target: Option<Seq<char>>) -> Seq<Seq<char>> {
    match target {
        Some(t) => if spec_matches_constraint(version, t) == Ok::<bool, Seq<char>>(false) {
            seq!["target '"@ + t + "' did not match"@]
        } else {
            seq![]
        },
        None => seq![],
    }
}

/// The taints that a version matches, in order.
pub open spec fn matched_taints(version: Seq<char>, taints: Seq<Seq<char>>) -> Seq<Seq<char>> {
    taints.filter(|x: Seq<char>| spec_matches_constraint(version, x) == Ok::<bool, Seq<char>>(true))
}

proof fn lemma_taint_refusals(version: Seq<char>, taints: Seq<Seq<char>>)
    requires
        forall|i: int| 0 <= i < taints.len() ==> #[trigger] spec_matches_constraint(version, taints[i]) is Ok,
    ensures
        spec_taint_rejections(version, taints) == Ok::<Seq<Seq<char>>, Seq<char>>(
            matched_taints(version, taints).map_values(|x: Seq<char>| taint_refusal(x)),
        ),
    decreases taints.len(),
{
    let p = |x: Seq<char>| spec_matches_constraint(version, x) == Ok::<bool, Seq<char>>(true);
    if taints.len() == 0 {
        assert(matched_taints(version, taints) =~= Seq::<Seq<char>>::empty());
        assert(matched_taints(version, taints).map_values(|x: Seq<char>| taint_refusal(x)) =~= Seq::<Seq<char>>::empty());
    } else {
        let rest = taints.drop_first();
        assert forall|i: int| 0 <= i < rest.len() implies #[trigger] spec_matches_constraint(version, rest[i]) is Ok by {
            assert(rest[i] == taints[i + 1]);
        }
        lemma_taint_refusals(version, rest);
        taints.lemma_filter_eq_filter_alt(p);
        assert(spec_matches_constraint(version, taints[0]) is Ok);
        let fr = matched_taints(version, rest);
        if p(taints[0]) {
            assert(matched_taints(version, taints) == seq![taints[0]] + fr);
            assert((seq![taints[0]] + fr).map_values(|x: Seq<char>| taint_refusal(x))
                =~= seq![taint_refusal(taints[0])] + fr.map_values(|x: Seq<char>| taint_refusal(x)));
            reveal_strlit("taint '");
            reveal_strlit("' matched");
        } else {
            assert(matched_taints(version, taints) == fr);
        }
    }
}

proof fn lemma_taint_first_error(version: Seq<char>, taints: Seq<Seq<char>>, k: int)
    requires
        0 <= k < taints.len(),
        forall|i: int| 0 <= i < k ==> #[trigger] spec_matches_constraint(version, taints[i]) is Ok,
        spec_matches_constraint(version, taints[k]) is Err,
    ensures
        spec_taint_rejections(version, taints) == Err::<Seq<Seq<char>>, Seq<char>>(spec_matches_constraint(version, taints[k])->Err_0),
    decreases k,
{
    if k > 0 {
        let rest = taints.drop_first();
        assert forall|i: int| 0 <= i < k - 1 implies #[trigger] spec_matches_constraint(version, rest[i]) is Ok by {
            assert(rest[i] == taints[i + 1]);
        }
        assert(rest[k - 1] == taints[k]);
        lemma_taint_first_error(version, rest, k - 1);
        assert(spec_matches_constraint(version, taints[0]) is Ok);
    }
}

/// What a version gate gives: with neither target nor taints, no refusal
/// whatever the version (even one that is not valid); when the target and
/// every taint can be evaluated, the target's refusal if it does not match,
/// then one refusal for each matching taint, in order; and otherwise the
/// first evaluation error, the target's before the taints'.
pub proof fn lemma_version_rule_refusals(version: Seq<char>, rule: ConstraintView)
    ensures
        rule.target is None && rule.taints.len() == 0 ==> spec_evaluate_version_rule(version, rule) == Ok::<
            Seq<Seq<char>>,
            Seq<char>,
        >(seq![]),
        (rule.target matches Some(t) ==> spec_matches_constraint(version, t) is Ok)
            && (forall|i: int| 0 <= i < rule.taints.len() ==> #[trigger] spec_matches_constraint(version, rule.taints[i]) is Ok)
            ==> spec_evaluate_version_rule(version, rule) == Ok::<Seq<Seq<char>>, Seq<char>>(
            target_refusals(version, rule.target) + matched_taints(version, rule.taints).map_values(|x: Seq<char>| taint_refusal(x)),
        ),
        rule.target matches Some(t) && spec_matches_constraint(version, t) is Err ==> spec_evaluate_version_rule(version, rule)
            == Err::<Seq<Seq<char>>, Seq<char>>(spec_matches_constraint(version, rule.target->0)->Err_0),
        forall|k: int| #![trigger rule.taints[k]]
            (rule.target matches Some(t) ==> spec_matches_constraint(version, t) is Ok) && 0 <= k < rule.taints.len()
                && (forall|i: int| 0 <= i < k ==> #[trigger] spec_matches_constraint(version, rule.taints[i]) is Ok)
                && spec_matches_constraint(version, rule.taints[k]) is Err ==> spec_evaluate_version_rule(version, rule)
                == Err::<Seq<Seq<char>>, Seq<char>>(spec_matches_constraint(version, rule.taints[k])->Err_0),
{
    if rule.taints.len() == 0 {
        assert(spec_taint_rejections(version, rule.taints) == Ok::<Seq<Seq<char>>, Seq<char>>(seq![]));
    }
    if forall|i: int| 0 <= i < rule.taints.len() ==> #[trigger] spec_matches_constraint(version, rule.taints[i]) is Ok {
        lemma_taint_refusals(version, rule.taints);
        if let Some(t) = rule.target {
            if spec_matches_constraint(version, t) == Ok::<bool, Seq<char>>(true) {
                assert(target_refusals(version, rule.target) + matched_taints(version, rule.taints).map_values(|x: Seq<char>| taint_refusal(x))
                    =~= seq![] + matched_taints(version, rule.taints).map_values(|x: Seq<char>| taint_refusal(x)));
            }
        } else {
            assert(target_refusals(version, rule.target) + matched_taints(version, rule.taints).map_values(|x: Seq<char>| taint_refusal(x))
                =~= seq![] + matched_taints(version, rule.taints).map_values(|x: Seq<char>| taint_refusal(x)));
        }
    }
    assert forall|k: int| #![trigger rule.taints[k]]
        (rule.target matches Some(t) ==> spec_matches_constraint(version, t) is Ok) && 0 <= k < rule.taints.len()
            && (forall|i: int| 0 <= i < k ==> #[trigger] spec_matches_constraint(version, rule.taints[i]) is Ok)
            && spec_matches_constraint(version, rule.taints[k]) is Err implies spec_evaluate_version_rule(version, rule)
            == Err::<Seq<Seq<char>>, Seq<char>>(spec_matches_constraint(version, rule.taints[k])->Err_0) by {
        lemma_taint_first_error(version, rule.taints, k);
    }
}

/// Checks a package version against its gate.
pub fn evaluate_version_rule(version: &str, rule: &VersionConstraint) -> (r: Result<VersionDecision, Error>)
    ensures
        match r {
            Ok(d) => d.version@ == version@ && spec_evaluate_version_rule(version@, rule@)
                == Ok::<Seq<Seq<char>>, Seq<char>>(texts(d.rejected_by@)),
            Err(e) => e matches Error::Config(m) && spec_evaluate_version_rule(version@, rule@)
                == Err::<Seq<Seq<char>>, Seq<char>>(m@),
        },
{
    let mut rejected_by: Vec<String> = Vec::new();
    if let Some(target) = &rule.target {
        let hit = matches_constraint(version, target.as_str())?;
        if !hit {
            rejected_by.push(join3("target '", target.as_str(), "' did not match"));
            assert(texts(rejected_by@) =~= seq!["target '"@ + target@ + "' did not match"@]);
        } else {
            assert(texts(rejected_by@) =~= Seq::<Seq<char>>::empty());
        }
    } else {
        assert(texts(rejected_by@) =~= Seq::<Seq<char>>::empty());
    }
    let ghost first = texts(rejected_by@);
    let mut i: usize = 0;
    let ghost taints = texts(rule.taints@);
    assert(taints.subrange(0, taints.len() as int) =~= taints);
    while i < rule.taints.len()
        invariant
            i <= rule.taints@.len(),
            taints == texts(rule.taints@),
            taints == rule@.taints,
            spec_evaluate_version_rule(version@, rule@) == match spec_taint_rejections(version@, taints) {
                Err(m) => Err::<Seq<Seq<char>>, Seq<char>>(m),
                Ok(all) => Ok::<Seq<Seq<char>>, Seq<char>>(first + all),
            },
            first.len() <= texts(rejected_by@).len(),
            texts(rejected_by@).subrange(0, first.len() as int) == first,
            match spec_taint_rejections(version@, taints) {
                Err(m) => match spec_taint_rejections(version@, taints.subrange(i as int, taints.len() as int)) {
                    Err(m2) => m2 == m,
                    Ok(_) => false,
                },
                Ok(all) => match spec_taint_rejections(version@, taints.subrange(i as int, taints.len() as int)) {
                    Err(_) => false,
                    Ok(rest) => first + all == texts(rejected_by@) + rest,
                },
            },
        decreases rule.taints@.len() - i,
    {
        let ghost rest = taints.subrange(i as int, taints.len() as int);
        assert(rest[0] == rule.taints@[i as int]@);
        assert(rest.drop_first() =~= taints.subrange(i + 1, taints.len() as int));
        let taint = &rule.taints[i];
        if matches_constraint(version, taint.as_str())? {
            let ghost before = texts(rejected_by@);
            rejected_by.push(join3("taint '", taint.as_str(), "' matched"));
            assert(texts(rejected_by@) =~= before.push("taint '"@ + taint@ + "' matched"@));
            assert(texts(rejected_by@).subrange(0, first.len() as int) =~= before.subrange(0, first.len() as int));
        }
        i = i + 1;
    }
    assert(taints.subrange(i as int, taints.len() as int) =~= Seq::<Seq<char>>::empty());
    assert(texts(rejected_by@) + Seq::<Seq<char>>::empty() =~= texts(rejected_by@));
    Ok(VersionDecision { version: owned(version), rejected_by })
}

} // verus!
