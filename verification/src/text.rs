//! Character-level text operations with their mathematical meaning.
//!
//! Every string is modelled as its sequence of characters (`s@`). The
//! functions here are the building blocks of the flake reference, URL and
//! report formatting code elsewhere in the crate.
use vstd::prelude::*;

verus! {

/// `p` occurs in `s` starting at position `i`.
pub open spec fn occurs_at(s: Seq<char>, p: Seq<char>, i: int) -> bool {
    &&& 0 <= i
    &&& i + p.len() <= s.len()
    &&& s.subrange(i, i + p.len()) == p
}

/// `s` starts with `p`.
pub open spec fn has_prefix(s: Seq<char>, p: Seq<char>) -> bool {
    occurs_at(s, p, 0)
}

/// The first position at or after `i` where `p` occurs in `s`.
pub open spec fn index_of_from(s: Seq<char>, p: Seq<char>, i: int) -> Option<int>
    decreases s.len() - i,
{
    if i < 0 || i + p.len() > s.len() {
        None
    } else if occurs_at(s, p, i) {
        Some(i)
    } else if i >= s.len() {
        None
    } else {
        index_of_from(s, p, i + 1)
    }
}

/// A position found by `index_of_from` is an occurrence at or after the
/// start position, and no earlier position from there is one.
pub proof fn lemma_index_of_from(s: Seq<char>, p: Seq<char>, i: int)
    requires
        0 <= i,
    ensures
        match index_of_from(s, p, i) {
            Some(j) => i <= j && occurs_at(s, p, j) && forall|k: int|
                i <= k < j ==> !occurs_at(s, p, k),
            None => forall|k: int| i <= k ==> !occurs_at(s, p, k),
        },
    decreases s.len() - i,
{
    if i < 0 || i + p.len() > s.len() {
    } else if occurs_at(s, p, i) {
    } else if i >= s.len() {
    } else {
        lemma_index_of_from(s, p, i + 1);
    }
}

/// The first position where `p` occurs in `s`.
pub open spec fn index_of(s: Seq<char>, p: Seq<char>) -> Option<int> {
    index_of_from(s, p, 0)
}

/// `s` with its first occurrence of `p` replaced by `r` (unchanged when
/// there is none).
pub open spec fn replace_first(s: Seq<char>, p: Seq<char>, r: Seq<char>) -> Seq<char> {
    match index_of(s, p) {
        Some(i) => s.subrange(0, i) + r + s.subrange(i + p.len(), s.len() as int),
        None => s,
    }
}

/// `s` with every occurrence of the non-empty `p` replaced by `r`, scanning
/// from the left and never letting two replaced occurrences overlap.
pub open spec fn replace_all(s: Seq<char>, p: Seq<char>, r: Seq<char>) -> Seq<char>
    decreases s.len(),
{
    if p.len() == 0 || s.len() < p.len() {
        s
    } else if has_prefix(s, p) {
        r + replace_all(s.subrange(p.len() as int, s.len() as int), p, r)
    } else {
        seq![s[0]] + replace_all(s.subrange(1, s.len() as int), p, r)
    }
}

/// `s` without all of its trailing `c` characters.
pub open spec fn trim_end_char(s: Seq<char>, c: char) -> Seq<char>
    decreases s.len(),
{
    if s.len() > 0 && s.last() == c {
        trim_end_char(s.drop_last(), c)
    } else {
        s
    }
}

/// `s` contains the character `c`.
pub open spec fn has_char(s: Seq<char>, c: char) -> bool {
    exists|i: int| 0 <= i < s.len() && s[i] == c
}

/// The position of the first `c` in `s`.
pub open spec fn char_index_from(s: Seq<char>, c: char, i: int) -> Option<int>
    decreases s.len() - i,
{
    if i < 0 || i >= s.len() {
        None
    } else if s[i] == c {
        Some(i)
    } else {
        char_index_from(s, c, i + 1)
    }
}

/// The position of the first `c` in `s`.
pub open spec fn char_index(s: Seq<char>, c: char) -> Option<int> {
    char_index_from(s, c, 0)
}

/// The pieces of `s` between the occurrences of `c` (as `str::split` with a
/// character separator gives them).
pub open spec fn split_char(s: Seq<char>, c: char) -> Seq<Seq<char>>
    decreases s.len(),
{
    match char_index(s, c) {
        Some(i) => {
            proof {
                lemma_char_index_from(s, c, 0);
            }
            seq![s.subrange(0, i)] + split_char(s.subrange(i + 1, s.len() as int), c)
        },
        None => seq![s],
    }
}

/// A position found by `char_index_from` holds `c`, lies at or after the
/// start position, and no earlier position from there holds `c`.
pub proof fn lemma_char_index_from(s: Seq<char>, c: char, i: int)
    requires
        0 <= i,
    ensures
        match char_index_from(s, c, i) {
            Some(j) => 0 <= i <= j < s.len() && s[j] == c && forall|k: int|
                i <= k < j ==> s[k] != c,
            None => forall|k: int| i <= k < s.len() ==> s[k] != c,
        },
    decreases s.len() - i,
{
    if i < 0 || i >= s.len() {
    } else if s[i] == c {
    } else {
        lemma_char_index_from(s, c, i + 1);
    }
}

/// The characters that Unicode's `White_Space` property (and therefore
/// `char::is_whitespace`) treats as white space.
pub open spec fn is_white_space(c: char) -> bool {
    let n = c as u32;
    ||| 0x09 <= n <= 0x0d
    ||| n == 0x20
    ||| n == 0x85
    ||| n == 0xa0
    ||| n == 0x1680
    ||| 0x2000 <= n <= 0x200a
    ||| n == 0x2028
    ||| n == 0x2029
    ||| n == 0x202f
    ||| n == 0x205f
    ||| n == 0x3000
}

/// The parts of `s` separated by white space, empty parts dropped (as
/// `str::split_whitespace` gives them).
pub open spec fn words(s: Seq<char>) -> Seq<Seq<char>>
    decreases s.len(),
{
    if s.len() == 0 {
        seq![]
    } else if is_white_space(s[0]) {
        words(s.subrange(1, s.len() as int))
    } else {
        let n = word_len(s, 0);
        proof {
            lemma_word_len(s, 0);
        }
        seq![s.subrange(0, n)] + words(s.subrange(n, s.len() as int))
    }
}

/// `word_len` stops at the first white space at or after `i`, or at the end.
pub proof fn lemma_word_len(s: Seq<char>, i: int)
    requires
        0 <= i <= s.len(),
    ensures
        i <= word_len(s, i) <= s.len(),
        i < s.len() && !is_white_space(s[i]) ==> i < word_len(s, i),
        forall|k: int| i <= k < word_len(s, i) ==> !is_white_space(s[k]),
        word_len(s, i) < s.len() ==> is_white_space(s[word_len(s, i)]),
    decreases s.len() - i,
{
    if i >= s.len() || is_white_space(s[i]) {
    } else {
        lemma_word_len(s, i + 1);
    }
}

/// The length of the run of non-white-space characters at the front of
/// `s.subrange(i, ..)`, counted from the start of `s`.
pub open spec fn word_len(s: Seq<char>, i: int) -> int
    decreases s.len() - i,
{
    if i < 0 || i >= s.len() || is_white_space(s[i]) {
        if i < 0 { 0 } else { i }
    } else {
        word_len(s, i + 1)
    }
}

/// `items` joined with `sep` between consecutive items.
pub open spec fn join(items: Seq<Seq<char>>, sep: Seq<char>) -> Seq<char>
    decreases items.len(),
{
    if items.len() == 0 {
        seq![]
    } else if items.len() == 1 {
        items[0]
    } else {
        join(items.drop_last(), sep) + sep + items.last()
    }
}

/// Lexicographic order on character sequences, comparing characters by
/// their code points. This is the order of `String`'s `Ord`, since UTF-8
/// encoding preserves the order of code points.
pub open spec fn text_lt(a: Seq<char>, b: Seq<char>) -> bool
    decreases a.len(),
{
    if a.len() == 0 {
        b.len() > 0
    } else if b.len() == 0 {
        false
    } else if (a[0] as int) < (b[0] as int) {
        true
    } else if a[0] == b[0] {
        text_lt(a.drop_first(), b.drop_first())
    } else {
        false
    }
}

/// Irreflexivity of the text order.
pub proof fn lemma_text_lt_irreflexive(a: Seq<char>)
    ensures
        !text_lt(a, a),
    decreases a.len(),
{
    if a.len() > 0 {
        lemma_text_lt_irreflexive(a.drop_first());
    }
}

/// Trichotomy of the text order.
pub proof fn lemma_text_lt_total(a: Seq<char>, b: Seq<char>)
    ensures
        text_lt(a, b) || text_lt(b, a) || a == b,
    decreases a.len(),
{
    if a.len() == 0 || b.len() == 0 {
        if a.len() == 0 && b.len() == 0 {
            assert(a =~= b);
        }
    } else if a[0] == b[0] {
        lemma_text_lt_total(a.drop_first(), b.drop_first());
        if a.drop_first() == b.drop_first() {
            assert(a =~= seq![a[0]] + a.drop_first());
            assert(b =~= seq![b[0]] + b.drop_first());
        }
    } else {
        assert((a[0] as int) != (b[0] as int));
    }
}

/// Asymmetry of the text order.
pub proof fn lemma_text_lt_asymmetric(a: Seq<char>, b: Seq<char>)
    ensures
        text_lt(a, b) ==> !text_lt(b, a),
    decreases a.len(),
{
    if a.len() > 0 && b.len() > 0 && a[0] == b[0] {
        lemma_text_lt_asymmetric(a.drop_first(), b.drop_first());
    }
}

/// Transitivity of the text order.
pub proof fn lemma_text_lt_transitive(a: Seq<char>, b: Seq<char>, c: Seq<char>)
    requires
        text_lt(a, b),
        text_lt(b, c),
    ensures
        text_lt(a, c),
    decreases a.len(),
{
    if a.len() > 0 && b.len() > 0 && c.len() > 0 && a[0] == b[0] && b[0] == c[0] {
        lemma_text_lt_transitive(a.drop_first(), b.drop_first(), c.drop_first());
    }
}

/// Appends one character to a string.
#[verifier::external_body]
pub(crate) fn push_char(s: &mut String, c: char)
    ensures
        final(s)@ == old(s)@.push(c),
{
    s.push(c);
}

/// The characters of a string slice, in order.
pub fn chars_of(s: &str) -> (r: Vec<char>)
    ensures
        r@ == s@,
{
    let mut out: Vec<char> = Vec::new();
    broadcast use vstd::string::axiom_spec_iter;

    for c in it: s.chars()
        invariant
            it.seq() == s@,
            out@ == it.seq().take(it.index()),
    {
        out.push(c);
    }
    out
}

/// Builds a string from a sequence of characters.
pub fn string_of(v: &[char]) -> (r: String)
    ensures
        r@ == v@,
{
    let mut out = String::new();
    let mut i: usize = 0;
    while i < v.len()
        invariant
            i <= v@.len(),
            out@ == v@.subrange(0, i as int),
        decreases v@.len() - i,
    {
        push_char(&mut out, v[i]);
        i = i + 1;
    }
    out
}

/// Builds a string from a range of a character sequence.
pub fn string_of_range(v: &[char], from: usize, to: usize) -> (r: String)
    requires
        from <= to <= v@.len(),
    ensures
        r@ == v@.subrange(from as int, to as int),
{
    let mut out = String::new();
    let mut i: usize = from;
    while i < to
        invariant
            from <= i <= to <= v@.len(),
            out@ == v@.subrange(from as int, i as int),
        decreases to - i,
    {
        push_char(&mut out, v[i]);
        i = i + 1;
    }
    out
}

/// Copies a string slice into an owned string.
pub fn owned(s: &str) -> (r: String)
    ensures
        r@ == s@,
{
    String::from_str(s)
}

/// Copies a string.
pub fn copy_string(s: &String) -> (r: String)
    ensures
        r@ == s@,
{
    s.clone()
}

/// Appends `tail` to `s`.
pub fn append(s: &mut String, tail: &str)
    ensures
        final(s)@ == old(s)@ + tail@,
{
    s.append(tail);
}

/// Two string slices hold the same characters.
pub fn text_eq(a: &str, b: &str) -> (r: bool)
    ensures
        r == (a@ == b@),
{
    let x = chars_of(a);
    let y = chars_of(b);
    chars_eq(&x, &y)
}

/// Two character sequences are equal.
pub fn chars_eq(x: &[char], y: &[char]) -> (r: bool)
    ensures
        r == (x@ == y@),
{
    if x.len() != y.len() {
        return false;
    }
    let mut i: usize = 0;
    while i < x.len()
        invariant
            x@.len() == y@.len(),
            i <= x@.len(),
            x@.subrange(0, i as int) == y@.subrange(0, i as int),
        decreases x@.len() - i,
    {
        if x[i] != y[i] {
            assert(x@[i as int] != y@[i as int]);
            return false;
        }
        assert(x@.subrange(0, i + 1) =~= x@.subrange(0, i as int).push(x@[i as int]));
        assert(y@.subrange(0, i + 1) =~= y@.subrange(0, i as int).push(y@[i as int]));
        i = i + 1;
    }
    assert(x@ =~= x@.subrange(0, i as int));
    assert(y@ =~= y@.subrange(0, i as int));
    true
}

/// `p` occurs in `s` at position `i`.
pub fn matches_at(s: &[char], p: &[char], i: usize) -> (r: bool)
    ensures
        r == occurs_at(s@, p@, i as int),
{
    if i > s.len() || p.len() > s.len() - i {
        return false;
    }
    let mut k: usize = 0;
    while k < p.len()
        invariant
            i + p@.len() <= s@.len(),
            s@.len() == s.len(),
            k <= p@.len(),
            s@.subrange(i as int, i + k) == p@.subrange(0, k as int),
        decreases p@.len() - k,
    {
        if s[i + k] != p[k] {
            assert(s@.subrange(i as int, i + p@.len())[k as int] != p@[k as int]);
            return false;
        }
        assert(s@.subrange(i as int, i + k + 1) =~= s@.subrange(i as int, i + k).push(
            s@[i + k],
        ));
        assert(p@.subrange(0, k + 1) =~= p@.subrange(0, k as int).push(p@[k as int]));
        k = k + 1;
    }
    assert(p@ =~= p@.subrange(0, k as int));
    true
}

/// The first position where `p` occurs in `s`.
pub fn find(s: &[char], p: &[char]) -> (r: Option<usize>)
    ensures
        match r {
            Some(i) => index_of(s@, p@) == Some(i as int),
            None => index_of(s@, p@) is None,
        },
{
    if p.len() > s.len() {
        return None;
    }
    let last = s.len() - p.len();
    let mut i: usize = 0;
    loop
        invariant
            last + p@.len() == s@.len(),
            i <= last,
            index_of_from(s@, p@, 0) == index_of_from(s@, p@, i as int),
        decreases last - i,
    {
        if matches_at(s, p, i) {
            return Some(i);
        }
        if i == last {
            assert(index_of_from(s@, p@, i + 1) is None);
            return None;
        }
        i = i + 1;
    }
}

/// Replaces the first occurrence of `p` in `s` by `r`.
pub fn replace_first_text(s: &str, p: &str, r: &str) -> (out: String)
    ensures
        out@ == replace_first(s@, p@, r@),
{
    let sv = chars_of(s);
    let pv = chars_of(p);
    proof {
        lemma_index_of_from(s@, p@, 0);
    }
    match find(&sv, &pv) {
        Some(i) => {
            assert(occurs_at(sv@, pv@, i as int));
            let n = sv.len();
            assert(i + pv@.len() <= n);
            let end: usize = i + pv.len();
            let mut out = string_of_range(&sv, 0, i);
            out.append(r);
            let rest = string_of_range(&sv, end, sv.len());
            out.append(rest.as_str());
            out
        },
        None => owned(s),
    }
}

/// Replaces every occurrence of the non-empty `p` in `s` by `r`.
pub fn replace_all_text(s: &str, p: &str, r: &str) -> (out: String)
    requires
        p@.len() > 0,
    ensures
        out@ == replace_all(s@, p@, r@),
{
    let sv = chars_of(s);
    let pv = chars_of(p);
    let mut out = String::new();
    let mut i: usize = 0;
    assert(sv@.subrange(0, sv@.len() as int) =~= sv@);
    while i < sv.len()
        invariant
            sv@ == s@,
            pv@ == p@,
            p@.len() > 0,
            i <= sv@.len(),
            out@ + replace_all(sv@.subrange(i as int, sv@.len() as int), p@, r@) == replace_all(
                s@,
                p@,
                r@,
            ),
        decreases sv@.len() - i,
    {
        let ghost rest = sv@.subrange(i as int, sv@.len() as int);
        if matches_at(&sv, &pv, i) {
            assert(rest.subrange(0, p@.len() as int) =~= sv@.subrange(i as int, i + p@.len()));
            assert(rest.subrange(p@.len() as int, rest.len() as int) =~= sv@.subrange(
                i + p@.len(),
                sv@.len() as int,
            ));
            out.append(r);
            i = i + pv.len();
        } else {
            assert(rest.len() >= p@.len() ==> rest.subrange(0, p@.len() as int)
                =~= sv@.subrange(i as int, i + p@.len()));
            assert(rest.subrange(1, rest.len() as int) =~= sv@.subrange(
                i + 1,
                sv@.len() as int,
            ));
            if sv.len() - i < pv.len() {
                // the rest is copied unchanged
                assert(replace_all(rest, p@, r@) == rest);
                let tail = string_of_range(&sv, i, sv.len());
                out.append(tail.as_str());
                assert(sv@.subrange(sv@.len() as int, sv@.len() as int) =~= Seq::<char>::empty());
                i = sv.len();
                assert(replace_all(Seq::<char>::empty(), p@, r@) == Seq::<char>::empty());
            } else {
                push_char(&mut out, sv[i]);
                i = i + 1;
            }
        }
    }
    assert(sv@.subrange(i as int, sv@.len() as int) =~= Seq::<char>::empty());
    out
}

/// `s` starts with `p`.
pub fn starts_with(s: &str, p: &str) -> (r: bool)
    ensures
        r == has_prefix(s@, p@),
{
    let sv = chars_of(s);
    let pv = chars_of(p);
    matches_at(&sv, &pv, 0)
}

/// `s` without its prefix `p`, when it has that prefix.
pub fn strip_prefix(s: &str, p: &str) -> (r: Option<String>)
    ensures
        match r {
            Some(rest) => has_prefix(s@, p@) && rest@ == s@.subrange(p@.len() as int, s@.len() as int),
            None => !has_prefix(s@, p@),
        },
{
    let sv = chars_of(s);
    let pv = chars_of(p);
    if matches_at(&sv, &pv, 0) {
        Some(string_of_range(&sv, pv.len(), sv.len()))
    } else {
        None
    }
}

/// `s` contains `p` somewhere.
pub fn contains_text(s: &str, p: &str) -> (r: bool)
    ensures
        r == (index_of(s@, p@) is Some),
{
    let sv = chars_of(s);
    let pv = chars_of(p);
    find(&sv, &pv).is_some()
}

/// `s` without all of its trailing `c` characters.
pub fn trim_end_matches_char(s: &str, c: char) -> (r: String)
    ensures
        r@ == trim_end_char(s@, c),
{
    let sv = chars_of(s);
    let mut n: usize = sv.len();
    assert(sv@.subrange(0, n as int) =~= sv@);
    while n > 0 && sv[n - 1] == c
        invariant
            n <= sv@.len(),
            trim_end_char(sv@, c) == trim_end_char(sv@.subrange(0, n as int), c),
        decreases n,
    {
        assert(sv@.subrange(0, n as int).drop_last() =~= sv@.subrange(0, n - 1));
        n = n - 1;
    }
    string_of_range(&sv, 0, n)
}

/// The character sequences of a list of strings.
pub open spec fn texts(v: Seq<String>) -> Seq<Seq<char>> {
    v.map_values(|s: String| s@)
}

/// Joins strings with a separator.
pub fn join_strings(items: &[String], sep: &str) -> (r: String)
    ensures
        r@ == join(texts(items@), sep@),
{
    let ghost views = texts(items@);
    let mut out = String::new();
    let mut i: usize = 0;
    while i < items.len()
        invariant
            i <= items@.len(),
            views == texts(items@),
            out@ == join(views.subrange(0, i as int), sep@),
        decreases items@.len() - i,
    {
        if i > 0 {
            out.append(sep);
        }
        out.append(items[i].as_str());
        assert(views.subrange(0, i + 1).drop_last() =~= views.subrange(0, i as int));
        i = i + 1;
    }
    assert(views.subrange(0, i as int) =~= views);
    out
}

/// Concatenates string pieces.
pub fn concat(pieces: &[&str]) -> (r: String)
    ensures
        r@ == pieces@.map_values(|s: &str| s@).flatten(),
{
    let ghost views = pieces@.map_values(|s: &str| s@);
    let mut out = String::new();
    let mut i: usize = 0;
    while i < pieces.len()
        invariant
            i <= pieces@.len(),
            views == pieces@.map_values(|s: &str| s@),
            out@ == views.subrange(0, i as int).flatten(),
        decreases pieces@.len() - i,
    {
        out.append(pieces[i]);
        proof {
            let a = views.subrange(0, i as int);
            let b = views.subrange(0, i + 1);
            assert(b =~= a.push(views[i as int]));
            a.lemma_flatten_push(views[i as int]);
        }
        i = i + 1;
    }
    assert(views.subrange(0, i as int) =~= views);
    out
}


/// `a` comes before `b` in the text order.
pub fn text_less(a: &str, b: &str) -> (r: bool)
    ensures
        r == text_lt(a@, b@),
{
    let x = chars_of(a);
    let y = chars_of(b);
    let mut i: usize = 0;
    assert(x@.subrange(0, x@.len() as int) =~= x@);
    assert(y@.subrange(0, y@.len() as int) =~= y@);
    while i < x.len() && i < y.len() && x[i] == y[i]
        invariant
            i <= x@.len(),
            i <= y@.len(),
            x@ == a@,
            y@ == b@,
            text_lt(a@, b@) == text_lt(x@.subrange(i as int, x@.len() as int), y@.subrange(i as int, y@.len() as int)),
        decreases x@.len() - i,
    {
        proof {
            let xs = x@.subrange(i as int, x@.len() as int);
            let ys = y@.subrange(i as int, y@.len() as int);
            assert(xs.drop_first() =~= x@.subrange(i + 1, x@.len() as int));
            assert(ys.drop_first() =~= y@.subrange(i + 1, y@.len() as int));
        }
        i = i + 1;
    }
    proof {
        let xs = x@.subrange(i as int, x@.len() as int);
        let ys = y@.subrange(i as int, y@.len() as int);
        if i < x@.len() && i < y@.len() {
            assert(xs[0] == x@[i as int]);
            assert(ys[0] == y@[i as int]);
        }
    }
    if i == x.len() {
        i < y.len()
    } else if i == y.len() {
        false
    } else {
        x[i] < y[i]
    }
}


/// `s` without its leading white space.
pub open spec fn trim_start(s: Seq<char>) -> Seq<char>
    decreases s.len(),
{
    if s.len() > 0 && is_white_space(s[0]) {
        trim_start(s.drop_first())
    } else {
        s
    }
}

/// `s` without its trailing white space.
pub open spec fn trim_end(s: Seq<char>) -> Seq<char>
    decreases s.len(),
{
    if s.len() > 0 && is_white_space(s.last()) {
        trim_end(s.drop_last())
    } else {
        s
    }
}

/// `s` without leading and trailing white space (as `str::trim` gives it).
pub open spec fn trim(s: Seq<char>) -> Seq<char> {
    trim_end(trim_start(s))
}

/// `trim_start` drops a prefix, and what is left is empty or starts with a
/// character that is not white space.
pub proof fn lemma_trim_start_shape(s: Seq<char>)
    ensures
        trim_start(s) == s.subrange(s.len() - trim_start(s).len(), s.len() as int),
        trim_start(s).len() <= s.len(),
        trim_start(s).len() == 0 || !is_white_space(trim_start(s)[0]),
    decreases s.len(),
{
    if s.len() > 0 && is_white_space(s[0]) {
        lemma_trim_start_shape(s.drop_first());
        assert(s.drop_first().subrange(s.drop_first().len() - trim_start(s).len(), s.drop_first().len() as int)
            =~= s.subrange(s.len() - trim_start(s).len(), s.len() as int));
    } else {
        assert(s.subrange(0, s.len() as int) =~= s);
    }
}

/// `trim_end` drops a suffix, and what is left is empty or ends with a
/// character that is not white space.
pub proof fn lemma_trim_end_shape(s: Seq<char>)
    ensures
        trim_end(s) == s.subrange(0, trim_end(s).len() as int),
        trim_end(s).len() <= s.len(),
        trim_end(s).len() == 0 || !is_white_space(trim_end(s).last()),
    decreases s.len(),
{
    if s.len() > 0 && is_white_space(s.last()) {
        lemma_trim_end_shape(s.drop_last());
        assert(s.drop_last().subrange(0, trim_end(s).len() as int) =~= s.subrange(0, trim_end(s).len() as int));
    } else {
        assert(s.subrange(0, s.len() as int) =~= s);
    }
}

/// Trimming twice is trimming once.
pub proof fn lemma_trim_idempotent(s: Seq<char>)
    ensures
        trim(trim(s)) == trim(s),
{
    let u = trim_start(s);
    let t = trim_end(u);
    lemma_trim_start_shape(s);
    lemma_trim_end_shape(u);
    if t.len() > 0 {
        assert(t[0] == u[0]);
    }
    assert(trim_start(t) == t);
    assert(trim_end(t) == t);
}

/// The trimmed text is a piece of the text: a character that the text
/// lacks, it lacks too.
pub proof fn lemma_trim_lacks(s: Seq<char>, c: char)
    requires
        !has_char(s, c),
    ensures
        !has_char(trim(s), c),
{
    let u = trim_start(s);
    lemma_trim_start_shape(s);
    lemma_trim_end_shape(u);
    let t = trim(s);
    if has_char(t, c) {
        let i = choose|i: int| 0 <= i < t.len() && t[i] == c;
        assert(t[i] == u[i]);
        assert(u[i] == s[s.len() - u.len() + i]);
    }
}

/// No piece of a split holds the separator.
pub proof fn lemma_split_char_pieces(s: Seq<char>, c: char)
    ensures
        forall|j: int| 0 <= j < split_char(s, c).len() ==> !has_char(#[trigger] split_char(s, c)[j], c),
    decreases s.len(),
{
    lemma_char_index_from(s, c, 0);
    match char_index(s, c) {
        Some(i) => {
            let rest = s.subrange(i + 1, s.len() as int);
            lemma_split_char_pieces(rest, c);
            let first = s.subrange(0, i);
            assert(!has_char(first, c)) by {
                if has_char(first, c) {
                    let k = choose|k: int| 0 <= k < first.len() && first[k] == c;
                    assert(s[k] == c);
                }
            }
            assert forall|j: int| 0 <= j < split_char(s, c).len() implies !has_char(#[trigger] split_char(s, c)[j], c) by {
                if j > 0 {
                    assert(split_char(s, c)[j] == split_char(rest, c)[j - 1]);
                }
            }
        },
        None => {
            assert(!has_char(s, c)) by {
                if has_char(s, c) {
                    let k = choose|k: int| 0 <= k < s.len() && s[k] == c;
                    assert(s[k] != c);
                }
            }
        },
    }
}

/// The exec counterpart of `is_white_space`.
pub fn white_space(c: char) -> (r: bool)
    ensures
        r == is_white_space(c),
{
    let n = c as u32;
    (0x09 <= n && n <= 0x0d) || n == 0x20 || n == 0x85 || n == 0xa0 || n == 0x1680 || (0x2000
        <= n && n <= 0x200a) || n == 0x2028 || n == 0x2029 || n == 0x202f || n == 0x205f || n
        == 0x3000
}

/// The bounds of the trimmed part of a character sequence.
pub fn trim_bounds(v: &[char]) -> (r: (usize, usize))
    ensures
        r.0 <= r.1 <= v@.len(),
        v@.subrange(r.0 as int, r.1 as int) == trim(v@),
        trim_start(v@) == v@.subrange(r.0 as int, v@.len() as int),
{
    let mut a: usize = 0;
    assert(v@.subrange(0, v@.len() as int) =~= v@);
    while a < v.len() && white_space(v[a])
        invariant
            a <= v@.len(),
            trim_start(v@) == trim_start(v@.subrange(a as int, v@.len() as int)),
        decreases v@.len() - a,
    {
        assert(v@.subrange(a as int, v@.len() as int).drop_first() =~= v@.subrange(a + 1, v@.len() as int));
        a = a + 1;
    }
    let mut b: usize = v.len();
    let ghost t = v@.subrange(a as int, v@.len() as int);
    assert(v@.subrange(a as int, b as int) =~= t);
    while b > a && white_space(v[b - 1])
        invariant
            a <= b <= v@.len(),
            trim_start(v@) == t,
            t == v@.subrange(a as int, v@.len() as int),
            trim_end(t) == trim_end(v@.subrange(a as int, b as int)),
        decreases b,
    {
        assert(v@.subrange(a as int, b as int).drop_last() =~= v@.subrange(a as int, b - 1));
        b = b - 1;
    }
    (a, b)
}

/// `s` without leading and trailing white space.
pub fn trim_text(s: &str) -> (r: String)
    ensures
        r@ == trim(s@),
{
    let v = chars_of(s);
    let (a, b) = trim_bounds(&v);
    string_of_range(&v, a, b)
}

/// Splitting a concatenation at a separator between its halves.
pub proof fn lemma_split_char_concat(a: Seq<char>, b: Seq<char>, c: char)
    requires
        !has_char(a, c),
    ensures
        split_char(a + seq![c] + b, c) == seq![a] + split_char(b, c),
{
    let s = a + seq![c] + b;
    lemma_char_index_from(s, c, 0);
    assert(s[a.len() as int] == c);
    match char_index(s, c) {
        Some(i) => {
            if i < a.len() {
                assert(a[i] == c);
            }
            assert(i == a.len());
            assert(s.subrange(0, i) =~= a);
            assert(s.subrange(i + 1, s.len() as int) =~= b);
        },
        None => {},
    }
}

/// A sequence without the separator is a single piece.
pub proof fn lemma_split_char_none(a: Seq<char>, c: char)
    requires
        !has_char(a, c),
    ensures
        split_char(a, c) == seq![a],
{
    lemma_char_index_from(a, c, 0);
    match char_index(a, c) {
        Some(i) => {
            assert(a[i] == c);
        },
        None => {},
    }
}

/// Splits at every occurrence of a character (as `str::split` does).
pub fn split_text(s: &str, c: char) -> (r: Vec<String>)
    ensures
        texts(r@) == split_char(s@, c),
{
    let v = chars_of(s);
    let mut out: Vec<String> = Vec::new();
    let mut start: usize = 0;
    let mut i: usize = 0;
    assert(v@.subrange(0, v@.len() as int) =~= v@);
    while i <= v.len()
        invariant
            v@ == s@,
            start <= i <= v@.len(),
            forall|k: int| start <= k < i ==> v@[k] != c,
            texts(out@) + split_char(v@.subrange(start as int, v@.len() as int), c) == split_char(s@, c),
        decreases v@.len() + 1 - i,
    {
        if i == v.len() || v[i] == c {
            let piece = string_of_range(&v, start, i);
            let ghost rest = v@.subrange(start as int, v@.len() as int);
            let ghost head = v@.subrange(start as int, i as int);
            let ghost before = texts(out@);
            proof {
                if i < v@.len() {
                    assert(rest =~= head + seq![c] + v@.subrange(i + 1, v@.len() as int));
                    assert(!has_char(head, c));
                    lemma_split_char_concat(head, v@.subrange(i + 1, v@.len() as int), c);
                } else {
                    assert(rest =~= head);
                    lemma_split_char_none(rest, c);
                }
            }
            out.push(piece);
            assert(texts(out@) =~= before.push(head));
            if i == v.len() {
                assert(split_char(rest, c) =~= seq![head]);
                assert(texts(out@) =~= before + split_char(rest, c));
                return out;
            }
            assert(texts(out@) + split_char(v@.subrange(i + 1, v@.len() as int), c) =~= before + split_char(rest, c));
            start = i + 1;
        }
        i = i + 1;
    }
    out
}

/// Splits at white space, dropping empty pieces (as `str::split_whitespace`
/// does).
pub fn split_words(s: &str) -> (r: Vec<String>)
    ensures
        texts(r@) == words(s@),
{
    let v = chars_of(s);
    let mut out: Vec<String> = Vec::new();
    let mut i: usize = 0;
    assert(v@.subrange(0, v@.len() as int) =~= v@);
    while i < v.len()
        invariant
            v@ == s@,
            i <= v@.len(),
            texts(out@) + words(v@.subrange(i as int, v@.len() as int)) == words(s@),
        decreases v@.len() - i,
    {
        let ghost rest = v@.subrange(i as int, v@.len() as int);
        if white_space(v[i]) {
            assert(rest.subrange(1, rest.len() as int) =~= v@.subrange(i + 1, v@.len() as int));
            i = i + 1;
        } else {
            let mut j: usize = i + 1;
            while j < v.len() && !white_space(v[j])
                invariant
                    v@ == s@,
                    i < j <= v@.len(),
                    forall|k: int| i <= k < j ==> !is_white_space(#[trigger] v@[k]),
                decreases v@.len() - j,
            {
                j = j + 1;
            }
            proof {
                lemma_word_len(rest, 0);
                let n = word_len(rest, 0);
                if n < j - i {
                    assert(is_white_space(rest[n]));
                    assert(rest[n] == v@[i + n]);
                } else if n > j - i {
                    assert(!is_white_space(rest[j - i]));
                    assert(rest[j - i] == v@[j as int]);
                }
                assert(n == j - i);
                assert(rest.subrange(0, n) =~= v@.subrange(i as int, j as int));
                assert(rest.subrange(n, rest.len() as int) =~= v@.subrange(j as int, v@.len() as int));
            }
            let ghost before = texts(out@);
            out.push(string_of_range(&v, i, j));
            assert(texts(out@) =~= before.push(v@.subrange(i as int, j as int)));
            assert(texts(out@) + words(v@.subrange(j as int, v@.len() as int)) =~= before + words(rest));
            i = j;
        }
    }
    assert(v@.subrange(i as int, v@.len() as int) =~= Seq::<char>::empty());
    assert(texts(out@) + words(Seq::<char>::empty()) =~= texts(out@));
    out
}

/// The ASCII digit for a value below ten.
pub open spec fn digit_char(d: nat) -> char {
    if d == 0 { '0' } else if d == 1 { '1' } else if d == 2 { '2' } else if d == 3 { '3' } else if d == 4 { '4' }
    else if d == 5 { '5' } else if d == 6 { '6' } else if d == 7 { '7' } else if d == 8 { '8' } else { '9' }
}

/// The decimal digits of a natural number, without leading zeros.
pub open spec fn decimal(n: nat) -> Seq<char>
    decreases n,
{
    if n < 10 {
        seq![digit_char(n)]
    } else {
        decimal(n / 10).push(digit_char(n % 10))
    }
}

/// The decimal text of an integer, with a leading `-` when negative.
pub open spec fn signed_decimal(n: int) -> Seq<char> {
    if n < 0 {
        seq!['-'] + decimal((-n) as nat)
    } else {
        decimal(n as nat)
    }
}

fn digit_of(d: u64) -> (c: char)
    requires
        d < 10,
    ensures
        c == digit_char(d as nat),
{
    if d == 0 { '0' } else if d == 1 { '1' } else if d == 2 { '2' } else if d == 3 { '3' } else if d == 4 { '4' }
    else if d == 5 { '5' } else if d == 6 { '6' } else if d == 7 { '7' } else if d == 8 { '8' } else { '9' }
}

/// Formats a number in decimal.
pub fn u64_text(n: u64) -> (r: String)
    ensures
        r@ == decimal(n as nat),
    decreases n,
{
    if n < 10 {
        let mut r = String::new();
        push_char(&mut r, digit_of(n));
        assert(r@ =~= seq![digit_char(n as nat)]);
        r
    } else {
        let mut r = u64_text(n / 10);
        push_char(&mut r, digit_of(n % 10));
        r
    }
}

/// Formats a count in decimal.
pub fn usize_text(n: usize) -> (r: String)
    ensures
        r@ == decimal(n as nat),
{
    u64_text(n as u64)
}

/// Formats a signed number in decimal.
pub fn i64_text(n: i64) -> (r: String)
    ensures
        r@ == signed_decimal(n as int),
{
    if n < 0 {
        let magnitude: u64 = if n == i64::MIN { 9223372036854775808u64 } else { (-n) as u64 };
        let digits = u64_text(magnitude);
        let mut r = String::new();
        push_char(&mut r, '-');
        r.append(digits.as_str());
        assert(r@ =~= seq!['-'] + decimal((-(n as int)) as nat));
        r
    } else {
        u64_text(n as u64)
    }
}

/// An ASCII digit.
pub open spec fn ascii_digit(c: char) -> bool {
    '0' <= c <= '9'
}

/// The number that ASCII digits denote.
pub open spec fn digits_value(s: Seq<char>) -> int
    decreases s.len(),
{
    if s.len() == 0 {
        0
    } else {
        digits_value(s.drop_last()) * 10 + (s.last() as int - '0' as int)
    }
}

/// Whether a number text is negative, and its digits after an optional sign.
pub open spec fn sign_split(s: Seq<char>) -> (bool, Seq<char>) {
    if s.len() > 0 && (s[0] == '-' || s[0] == '+') {
        (s[0] == '-', s.subrange(1, s.len() as int))
    } else {
        (false, s)
    }
}

/// The number that an `i64` parse of the text gives: an optional sign and
/// at least one ASCII digit, within the range of `i64`.
pub open spec fn parse_i64_value(s: Seq<char>) -> Option<int> {
    let negative = sign_split(s).0;
    let digits = sign_split(s).1;
    if digits.len() == 0 || !(forall|i: int| 0 <= i < digits.len() ==> ascii_digit(#[trigger] digits[i])) {
        None
    } else {
        let v = if negative { -digits_value(digits) } else { digits_value(digits) };
        if i64::MIN <= v <= i64::MAX { Some(v) } else { None }
    }
}

proof fn lemma_digits_value_nonneg(s: Seq<char>)
    requires
        forall|i: int| 0 <= i < s.len() ==> ascii_digit(#[trigger] s[i]),
    ensures
        digits_value(s) >= 0,
    decreases s.len(),
{
    if s.len() > 0 {
        assert forall|i: int| 0 <= i < s.drop_last().len() implies ascii_digit(#[trigger] s.drop_last()[i]) by {
            assert(s.drop_last()[i] == s[i]);
        }
        lemma_digits_value_nonneg(s.drop_last());
        assert(ascii_digit(s[s.len() - 1]));
    }
}

/// Parses a decimal `i64` as `str::parse::<i64>` does.
pub fn parse_i64(s: &str) -> (r: Option<i64>)
    ensures
        match r {
            Some(v) => parse_i64_value(s@) == Some(v as int),
            None => parse_i64_value(s@) is None,
        },
{
    let v = chars_of(s);
    let mut start: usize = 0;
    let mut negative = false;
    if v.len() > 0 && (v[0] == '-' || v[0] == '+') {
        negative = v[0] == '-';
        start = 1;
    }
    let ghost digits = v@.subrange(start as int, v@.len() as int);
    assert(sign_split(s@) == (negative, digits));
    if start == v.len() {
        assert(digits.len() == 0);
        return None;
    }
    // Accumulate the magnitude, allowing one more than i64::MAX for i64::MIN.
    let limit: u64 = 9223372036854775808u64;
    let mut acc: u64 = 0;
    let mut i: usize = start;
    while i < v.len()
        invariant
            v@ == s@,
            start <= i <= v@.len(),
            digits == v@.subrange(start as int, v@.len() as int),
            sign_split(s@) == (negative, digits),
            limit == 9223372036854775808u64,
            acc as int == digits_value(v@.subrange(start as int, i as int)),
            acc <= limit,
            forall|k: int| start <= k < i ==> ascii_digit(#[trigger] v@[k]),
        decreases v@.len() - i,
    {
        let c = v[i];
        assert(v@.subrange(start as int, i + 1).drop_last() =~= v@.subrange(start as int, i as int));
        if !('0' <= c && c <= '9') {
            assert(!ascii_digit(digits[i - start]));
            return None;
        }
        let d: u64 = (c as u32 - '0' as u32) as u64;
        let ghost pre = v@.subrange(start as int, i + 1);
        assert(pre.last() == c);
        assert(d as int == c as int - '0' as int);
        assert(digits_value(pre) == acc * 10 + d);
        if acc > (limit - d) / 10 {
            proof {
                assert forall|k: int| 0 <= k < pre.len() implies ascii_digit(#[trigger] pre[k]) by {
                    assert(pre[k] == v@[start + k]);
                }
                assert(digits_value(pre) > limit) by (nonlinear_arith)
                    requires
                        digits_value(pre) == acc * 10 + d,
                        acc > (limit - d) / 10,
                        d < 10,
                        limit == 9223372036854775808u64;
                assert forall|k: int| 0 <= k < i + 1 - start implies ascii_digit(#[trigger] digits[k]) by {
                    assert(digits[k] == v@[start + k]);
                }
                lemma_digits_prefix_grows(digits, i + 1 - start);
                assert(digits.subrange(0, i + 1 - start) =~= pre);
            }
            return None;
        }
        assert(acc * 10 + d <= limit) by (nonlinear_arith)
            requires
                acc <= (limit - d) / 10,
                d < 10,
                limit == 9223372036854775808u64;
        acc = acc * 10 + d;
        i = i + 1;
    }
    assert(v@.subrange(start as int, i as int) =~= digits);
    proof {
        assert forall|k: int| 0 <= k < digits.len() implies ascii_digit(#[trigger] digits[k]) by {
            assert(digits[k] == v@[start + k]);
        }
    }
    if negative {
        if acc == limit {
            Some(i64::MIN)
        } else {
            Some(-(acc as i64))
        }
    } else {
        if acc == limit {
            None
        } else {
            Some(acc as i64)
        }
    }
}

/// Extending a run of digits never makes its value smaller than that of
/// its first `n` digits.
proof fn lemma_digits_prefix_grows(s: Seq<char>, n: int)
    requires
        0 <= n <= s.len(),
        forall|i: int| 0 <= i < n ==> ascii_digit(#[trigger] s[i]),
    ensures
        (forall|i: int| 0 <= i < s.len() ==> ascii_digit(#[trigger] s[i])) ==> digits_value(s) >= digits_value(s.subrange(0, n)),
    decreases s.len(),
{
    if s.len() > n {
        if forall|i: int| 0 <= i < s.len() ==> ascii_digit(#[trigger] s[i]) {
            let t = s.drop_last();
            assert forall|i: int| 0 <= i < t.len() implies ascii_digit(#[trigger] t[i]) by {
                assert(t[i] == s[i]);
            }
            lemma_digits_prefix_grows(t, n);
            assert(t.subrange(0, n) =~= s.subrange(0, n));
            lemma_digits_value_nonneg(t);
            assert(ascii_digit(s[s.len() - 1]));
            assert(digits_value(s) >= digits_value(t)) by (nonlinear_arith)
                requires
                    digits_value(s) == digits_value(t) * 10 + (s.last() as int - '0' as int),
                    digits_value(t) >= 0,
                    s.last() as int - '0' as int >= 0;
        }
    } else {
        assert(s.subrange(0, n) =~= s);
    }
}

/// Splitting always gives at least one piece.
pub proof fn lemma_split_char_nonempty(s: Seq<char>, c: char)
    ensures
        split_char(s, c).len() > 0,
    decreases s.len(),
{
    lemma_char_index_from(s, c, 0);
    match char_index(s, c) {
        Some(i) => {
            lemma_split_char_nonempty(s.subrange(i + 1, s.len() as int), c);
        },
        None => {},
    }
}

/// Calls `std::str::from_utf8`: the text that valid UTF-8 bytes encode, or
/// none for bytes that are not valid UTF-8.
#[verifier::external_body]
pub(crate) fn utf8_text(bytes: &[u8]) -> (r: Option<String>)
    ensures
        match r {
            Some(s) => vstd::utf8::valid_utf8(bytes@) && s@ == vstd::utf8::decode_utf8(bytes@),
            None => !vstd::utf8::valid_utf8(bytes@),
        },
{
    std::str::from_utf8(bytes).ok().map(|s| s.to_string())
}

/// Formats a large number in decimal.
pub fn u128_text(n: u128) -> (r: String)
    ensures
        r@ == decimal(n as nat),
    decreases n,
{
    if n < 10 {
        let mut r = String::new();
        push_char(&mut r, digit_of(n as u64));
        assert(r@ =~= seq![digit_char(n as nat)]);
        r
    } else {
        let mut r = u128_text(n / 10);
        push_char(&mut r, digit_of((n % 10) as u64));
        r
    }
}

} // verus!
