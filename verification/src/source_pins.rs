//! Source pins: the git sources that `Cargo.lock` names, the URLs that
//! prefetch them, and the Nix sidecar that records their hashes.
use crate::config::opt_text;
use crate::error::{join2, join3, join4, join5};
use crate::merge::{sorted_distinct, stable_union};
use crate::pattern::{compile, group_capture, named_captures, opt_texts, regex_error, regex_group_capture, regex_named_captures};
use crate::text::{
    char_index, chars_of, copy_string, join, join_strings, owned, push_char, replace_all, replace_all_text, split_char,
    split_text, string_of, string_of_range, text_eq, texts, trim, trim_text, utf8_text, lemma_char_index_from,
};
use vstd::prelude::*;

verus! {

/// What to update: the sidecar named `name` at `output_file`, from the git
/// sources of `lock_file`, prefetched with `nix_bin` by `workers` workers.
#[derive(Debug)]
pub struct SourcePinsOptions {
    pub name: String,
    pub lock_file: String,
    pub output_file: String,
    pub nix_bin: String,
    pub workers: usize,
    pub dry_run: bool,
}

/// What an update did, or would do.
#[derive(Debug, Clone, Copy, PartialEq, Eq, Structural)]
pub enum UpdateStatus {
    Current,
    WouldUpdate { added: usize, removed: usize },
    Updated { sources: usize },
}

/// A prefetched source and its hash.
#[derive(Debug)]
pub struct GitHash {
    pub source: String,
    pub hash: String,
}

/// An update needs at least one worker.
pub fn check_workers(options: &SourcePinsOptions) -> (r: Result<(), String>)
    ensures
        options.workers == 0 ==> (r matches Err(m) && m@ == "source-pin worker count must be greater than zero"@),
        options.workers > 0 ==> r is Ok,
{
    if options.workers == 0 {
        Err(owned("source-pin worker count must be greater than zero"))
    } else {
        Ok(())
    }
}

/// Whether an update can stop before prefetching: an existing, current
/// sidecar needs nothing, and a dry run only reports the difference.
pub fn update_shortcut(options: &SourcePinsOptions, output_exists: bool, added: usize, removed: usize) -> (r: Option<UpdateStatus>)
    ensures
        r == if output_exists && added == 0 && removed == 0 {
            Some(UpdateStatus::Current)
        } else if options.dry_run {
            Some(UpdateStatus::WouldUpdate { added, removed })
        } else {
            None
        },
{
    if output_exists && added == 0 && removed == 0 {
        Some(UpdateStatus::Current)
    } else if options.dry_run {
        Some(UpdateStatus::WouldUpdate { added, removed })
    } else {
        None
    }
}

/// The value of a hexadecimal digit byte.
pub open spec fn hex_digit(b: u8) -> Option<u8> {
    if 48 <= b <= 57 {
        Some((b - 48) as u8)
    } else if 97 <= b <= 102 {
        Some((b - 97 + 10) as u8)
    } else if 65 <= b <= 70 {
        Some((b - 65 + 10) as u8)
    } else {
        None
    }
}

/// The value of a hexadecimal digit byte.
pub fn hex_value(byte: u8) -> (r: Option<u8>)
    ensures
        r == hex_digit(byte),
{
    if 48 <= byte && byte <= 57 {
        Some(byte - 48)
    } else if 97 <= byte && byte <= 102 {
        Some(byte - 97 + 10)
    } else if 65 <= byte && byte <= 70 {
        Some(byte - 65 + 10)
    } else {
        None
    }
}

/// `p` before the rest of a decoding, when the rest decodes.
pub open spec fn prefixed(p: Seq<u8>, rest: Option<Seq<u8>>) -> Option<Seq<u8>> {
    match rest {
        Some(r) => Some(p + r),
        None => None,
    }
}

/// The bytes that percent-decoding gives: `%` and two hexadecimal digits
/// stand for one byte, every other byte for itself; a `%` without two
/// digits after it fails.
pub open spec fn percent_decoded(bs: Seq<u8>) -> Option<Seq<u8>>
    decreases bs.len(),
{
    if bs.len() == 0 {
        Some(seq![])
    } else if bs[0] == 37u8 {
        if bs.len() < 3 {
            None
        } else {
            match (hex_digit(bs[1]), hex_digit(bs[2])) {
                (Some(h), Some(l)) => prefixed(seq![(h * 16 + l) as u8], percent_decoded(bs.subrange(3, bs.len() as int))),
                _ => None,
            }
        }
    } else {
        prefixed(seq![bs[0]], percent_decoded(bs.subrange(1, bs.len() as int)))
    }
}

proof fn lemma_prefixed_assoc(a: Seq<u8>, b: Seq<u8>, o: Option<Seq<u8>>)
    ensures
        prefixed(a, prefixed(b, o)) == prefixed(a + b, o),
{
    if o is Some {
        assert(a + (b + o->0) =~= (a + b) + o->0);
    }
}

/// What percent-decoding a cargo source gives: its text, or why it fails.
pub open spec fn spec_percent_decode(input: Seq<char>) -> Result<Seq<char>, Seq<char>> {
    match percent_decoded(vstd::utf8::encode_utf8(input)) {
        None => Err("invalid percent escape in cargo git source: "@ + input),
        Some(out) => if vstd::utf8::valid_utf8(out) {
            Ok(vstd::utf8::decode_utf8(out))
        } else {
            Err("decoded cargo git source is not UTF-8"@)
        },
    }
}

/// Percent-decodes a cargo git source.
pub fn percent_decode(input: &str) -> (r: Result<String, String>)
    ensures
        match r {
            Ok(s) => spec_percent_decode(input@) == Ok::<Seq<char>, Seq<char>>(s@),
            Err(m) => spec_percent_decode(input@) == Err::<Seq<char>, Seq<char>>(m@),
        },
{
    let bytes = input.as_bytes();
    let ghost bs = bytes@;
    let mut output: Vec<u8> = Vec::new();
    let mut index: usize = 0;
    assert(bs.subrange(0, bs.len() as int) =~= bs);
    while index < bytes.len()
        invariant
            bs == bytes@,
            bs == vstd::utf8::encode_utf8(input@),
            index <= bs.len(),
            percent_decoded(bs) == prefixed(output@, percent_decoded(bs.subrange(index as int, bs.len() as int))),
        decreases bs.len() - index,
    {
        let ghost rest = bs.subrange(index as int, bs.len() as int);
        if bytes[index] == 37u8 {
            if bytes.len() - index < 3 {
                assert(rest.len() < 3);
                return Err(join2("invalid percent escape in cargo git source: ", input));
            }
            let high = match hex_value(bytes[index + 1]) {
                Some(h) => h,
                None => {
                    assert(rest[1] == bs[index + 1]);
                    return Err(join2("invalid percent escape in cargo git source: ", input));
                },
            };
            let low = match hex_value(bytes[index + 2]) {
                Some(l) => l,
                None => {
                    assert(rest[2] == bs[index + 2]);
                    return Err(join2("invalid percent escape in cargo git source: ", input));
                },
            };
            assert(rest[1] == bs[index + 1] && rest[2] == bs[index + 2]);
            assert(rest.subrange(3, rest.len() as int) =~= bs.subrange(index + 3, bs.len() as int));
            let ghost before = output@;
            output.push(high * 16 + low);
            assert(output@ =~= before + seq![(high * 16 + low) as u8]);
            proof {
                lemma_prefixed_assoc(before, seq![(high * 16 + low) as u8], percent_decoded(bs.subrange(index + 3, bs.len() as int)));
            }
            index = index + 3;
        } else {
            assert(rest.subrange(1, rest.len() as int) =~= bs.subrange(index + 1, bs.len() as int));
            let ghost before = output@;
            output.push(bytes[index]);
            assert(output@ =~= before + seq![bs[index as int]]);
            proof {
                lemma_prefixed_assoc(before, seq![bs[index as int]], percent_decoded(bs.subrange(index + 1, bs.len() as int)));
            }
            index = index + 1;
        }
    }
    assert(bs.subrange(index as int, bs.len() as int) =~= Seq::<u8>::empty());
    assert(output@ + Seq::<u8>::empty() =~= output@);
    match utf8_text(output.as_slice()) {
        Some(s) => Ok(s),
        None => Err(owned("decoded cargo git source is not UTF-8")),
    }
}

/// The two halves of a text around the first `c`.
pub open spec fn split_once(s: Seq<char>, c: char) -> Option<(Seq<char>, Seq<char>)> {
    match char_index(s, c) {
        Some(i) => Some((s.subrange(0, i), s.subrange(i + 1, s.len() as int))),
        None => None,
    }
}

/// Splits a text around the first occurrence of a character.
pub fn split_once_text(s: &str, c: char) -> (r: Option<(String, String)>)
    ensures
        match r {
            Some((a, b)) => split_once(s@, c) == Some((a@, b@)),
            None => split_once(s@, c) is None,
        },
{
    let v = chars_of(s);
    let mut i: usize = 0;
    while i < v.len() && v[i] != c
        invariant
            v@ == s@,
            i <= v@.len(),
            forall|k: int| 0 <= k < i ==> v@[k] != c,
        decreases v@.len() - i,
    {
        i = i + 1;
    }
    proof {
        lemma_char_index_from(v@, c, 0);
    }
    if i == v.len() {
        return None;
    }
    Some((string_of_range(&v, 0, i), string_of_range(&v, i + 1, v.len())))
}

/// A query parameter as key and value (an empty value without `=`).
pub open spec fn param_kv(p: Seq<char>) -> (Seq<char>, Seq<char>) {
    match split_once(p, '=') {
        Some(kv) => kv,
        None => (p, seq![]),
    }
}

/// The revision and the reference the query parameters name; later
/// parameters win.
pub open spec fn query_refs(params: Seq<Seq<char>>) -> (Option<Seq<char>>, Option<Seq<char>>)
    decreases params.len(),
{
    if params.len() == 0 {
        (None, None)
    } else {
        let before = query_refs(params.drop_last());
        let p = params.last();
        let (key, value) = param_kv(p);
        if p.len() == 0 {
            before
        } else if key == "rev"@ {
            (Some(value), before.1)
        } else if key == "ref"@ || key == "branch"@ || key == "tag"@ {
            (before.0, Some(value))
        } else {
            before
        }
    }
}

/// The URL that prefetches a cargo git source at its resolved revision: the
/// remote, with the reference and the revision (the fragment, when there is
/// one) as `ref=` and `rev=` parameters.
pub open spec fn spec_prefetch_url(source: Seq<char>) -> Seq<char> {
    let (without_fragment, fragment) = match split_once(source, '#') {
        Some(x) => x,
        None => (source, seq![]),
    };
    let (remote, query) = match split_once(without_fragment, '?') {
        Some(x) => x,
        None => (without_fragment, seq![]),
    };
    let refs = query_refs(split_char(query, '&'));
    let rev = if fragment.len() > 0 { Some(fragment) } else { refs.0 };
    let parameters = (match refs.1 {
        Some(r) => seq!["ref="@ + r],
        None => seq![],
    }) + (match rev {
        Some(r) => seq!["rev="@ + r],
        None => seq![],
    });
    if parameters.len() == 0 {
        remote
    } else {
        remote + "?"@ + join(parameters, "&"@)
    }
}

/// Builds the URL that prefetches a cargo git source at its resolved
/// revision.
pub fn prefetch_url(source: &str) -> (r: Result<String, String>)
    ensures
        r matches Ok(u) && u@ == spec_prefetch_url(source@),
{
    let (without_fragment, fragment) = match split_once_text(source, '#') {
        Some(x) => x,
        None => (owned(source), String::new()),
    };
    let (remote, query) = match split_once_text(without_fragment.as_str(), '?') {
        Some(x) => x,
        None => (copy_string(&without_fragment), String::new()),
    };
    let params = split_text(query.as_str(), '&');
    let ghost ps = texts(params@);
    let mut rev: Option<String> = None;
    let mut reference: Option<String> = None;
    let mut i: usize = 0;
    proof {
        reveal_strlit("rev");
        reveal_strlit("ref");
        reveal_strlit("branch");
        reveal_strlit("tag");
    }
    while i < params.len()
        invariant
            i <= params@.len(),
            ps == texts(params@),
            (opt_text(rev), opt_text(reference)) == query_refs(ps.subrange(0, i as int)),
        decreases params@.len() - i,
    {
        assert(ps.subrange(0, i + 1).drop_last() =~= ps.subrange(0, i as int));
        assert(ps.subrange(0, i + 1).last() == params@[i as int]@);
        let p = &params[i];
        if p.unicode_len() > 0 {
            let (key, value) = match split_once_text(p.as_str(), '=') {
                Some(kv) => kv,
                None => (copy_string(p), String::new()),
            };
            if text_eq(key.as_str(), "rev") {
                rev = Some(value);
            } else if text_eq(key.as_str(), "ref") || text_eq(key.as_str(), "branch") || text_eq(key.as_str(), "tag") {
                reference = Some(value);
            }
        }
        i = i + 1;
    }
    assert(ps.subrange(0, i as int) =~= ps);
    if fragment.unicode_len() > 0 {
        rev = Some(fragment);
    }
    let mut parameters: Vec<String> = Vec::new();
    if let Some(r) = reference {
        parameters.push(join2("ref=", r.as_str()));
    }
    if let Some(r) = rev {
        parameters.push(join2("rev=", r.as_str()));
    }
    proof {
        let refs = query_refs(split_char(query@, '&'));
        let rv = if fragment@.len() > 0 { Some(fragment@) } else { refs.0 };
        let expected = (match refs.1 {
            Some(r) => seq!["ref="@ + r],
            None => seq![],
        }) + (match rv {
            Some(r) => seq!["rev="@ + r],
            None => seq![],
        });
        assert(texts(parameters@) =~= expected);
    }
    if parameters.len() == 0 {
        Ok(remote)
    } else {
        Ok(join3(remote.as_str(), "?", join_strings(&parameters, "&").as_str()))
    }
}

/// The pattern that finds the git sources of `Cargo.lock`.
pub open spec fn cargo_source_pattern() -> Seq<char> {
    "(?m)^\\s*source = \"git\\+(?P<source>[^\"]+)\""@
}

/// The decoded git sources, each prefixed with `git+`, or the first error.
pub open spec fn decoded_sources(found: Seq<Option<Seq<char>>>) -> Result<Seq<Seq<char>>, Seq<char>>
    decreases found.len(),
{
    if found.len() == 0 {
        Ok(seq![])
    } else {
        match found[0] {
            None => Err("missing source capture"@),
            Some(encoded) => match spec_percent_decode(encoded) {
                Err(m) => Err(m),
                Ok(d) => match decoded_sources(found.drop_first()) {
                    Err(m) => Err(m),
                    Ok(rest) => Ok(seq!["git+"@ + d] + rest),
                },
            },
        }
    }
}

/// The git sources that a `Cargo.lock` names, decoded, each once, in order.
pub open spec fn spec_cargo_git_sources(raw: Seq<char>) -> Result<Seq<Seq<char>>, Seq<char>> {
    match regex_error(cargo_source_pattern()) {
        Some(e) => Err(e),
        None => match decoded_sources(regex_named_captures(cargo_source_pattern(), raw, "source"@)) {
            Err(m) => Err(m),
            Ok(sources) => Ok(sorted_distinct(sources)),
        },
    }
}

/// Reads the git sources that a `Cargo.lock` names.
pub fn parse_cargo_git_sources(raw: &str) -> (r: Result<Vec<String>, String>)
    ensures
        match r {
            Ok(v) => spec_cargo_git_sources(raw@) == Ok::<Seq<Seq<char>>, Seq<char>>(texts(v@)),
            Err(m) => spec_cargo_git_sources(raw@) == Err::<Seq<Seq<char>>, Seq<char>>(m@),
        },
{
    let re = match compile("(?m)^\\s*source = \"git\\+(?P<source>[^\"]+)\"") {
        Ok(re) => re,
        Err(e) => {
            return Err(e);
        },
    };
    let found = named_captures(&re, raw, "source");
    let ghost fs = opt_texts(found@);
    let mut sources: Vec<String> = Vec::new();
    let mut i: usize = 0;
    assert(fs.subrange(0, fs.len() as int) =~= fs);
    assert(regex_error(cargo_source_pattern()) is None);
    assert(fs == regex_named_captures(cargo_source_pattern(), raw@, "source"@));
    while i < found.len()
        invariant
            i <= found@.len(),
            fs == opt_texts(found@),
            regex_error(cargo_source_pattern()) is None,
            fs == regex_named_captures(cargo_source_pattern(), raw@, "source"@),
            decoded_sources(fs) == match decoded_sources(fs.subrange(i as int, fs.len() as int)) {
                Err(m) => Err(m),
                Ok(rest) => Ok::<Seq<Seq<char>>, Seq<char>>(texts(sources@) + rest),
            },
        decreases found@.len() - i,
    {
        let ghost tail = fs.subrange(i as int, fs.len() as int);
        assert(tail[0] == opt_text(found@[i as int]));
        assert(tail.drop_first() =~= fs.subrange(i + 1, fs.len() as int));
        let encoded = match &found[i] {
            Some(e) => e,
            None => {
                return Err(owned("missing source capture"));
            },
        };
        let decoded = match percent_decode(encoded.as_str()) {
            Ok(d) => d,
            Err(m) => {
                return Err(m);
            },
        };
        let ghost before = texts(sources@);
        sources.push(join2("git+", decoded.as_str()));
        assert(texts(sources@) =~= before.push("git+"@ + decoded@));
        proof {
            match decoded_sources(tail.drop_first()) {
                Err(m) => {},
                Ok(rest) => {
                    assert(before + (seq!["git+"@ + decoded@] + rest) =~= texts(sources@) + rest);
                },
            }
        }
        i = i + 1;
    }
    assert(fs.subrange(i as int, fs.len() as int) =~= Seq::<Option<Seq<char>>>::empty());
    assert(texts(sources@) + Seq::<Seq<char>>::empty() =~= texts(sources@));
    Ok(stable_union(sources))
}

/// The pattern that finds the sources a sidecar records.
pub open spec fn sidecar_source_pattern() -> Seq<char> {
    "(?m)^\\s*\"(?P<source>git\\+[^\"]+)\"\\s*="@
}

/// The found texts, absent ones dropped, in order.
pub open spec fn present_texts(found: Seq<Option<Seq<char>>>) -> Seq<Seq<char>>
    decreases found.len(),
{
    if found.len() == 0 {
        seq![]
    } else {
        match found.last() {
            Some(t) => present_texts(found.drop_last()).push(t),
            None => present_texts(found.drop_last()),
        }
    }
}

/// The sources a sidecar records, each once, in order.
pub open spec fn spec_sidecar_sources(raw: Seq<char>) -> Result<Seq<Seq<char>>, Seq<char>> {
    match regex_error(sidecar_source_pattern()) {
        Some(e) => Err(e),
        None => Ok(sorted_distinct(present_texts(regex_named_captures(sidecar_source_pattern(), raw, "source"@)))),
    }
}

/// Reads the sources a sidecar records.
pub fn parse_sidecar_sources(raw: &str) -> (r: Result<Vec<String>, String>)
    ensures
        match r {
            Ok(v) => spec_sidecar_sources(raw@) == Ok::<Seq<Seq<char>>, Seq<char>>(texts(v@)),
            Err(m) => spec_sidecar_sources(raw@) == Err::<Seq<Seq<char>>, Seq<char>>(m@),
        },
{
    let re = match compile("(?m)^\\s*\"(?P<source>git\\+[^\"]+)\"\\s*=") {
        Ok(re) => re,
        Err(e) => {
            return Err(e);
        },
    };
    let found = named_captures(&re, raw, "source");
    let ghost fs = opt_texts(found@);
    let mut present: Vec<String> = Vec::new();
    let mut i: usize = 0;
    while i < found.len()
        invariant
            i <= found@.len(),
            fs == opt_texts(found@),
            texts(present@) == present_texts(fs.subrange(0, i as int)),
        decreases found@.len() - i,
    {
        assert(fs.subrange(0, i + 1).drop_last() =~= fs.subrange(0, i as int));
        assert(fs.subrange(0, i + 1).last() == opt_text(found@[i as int]));
        if let Some(t) = &found[i] {
            let ghost before = texts(present@);
            present.push(copy_string(t));
            assert(texts(present@) =~= before.push(t@));
        }
        i = i + 1;
    }
    assert(fs.subrange(0, i as int) =~= fs);
    Ok(stable_union(present))
}

/// The items of `xs` that `ys` does not hold, in order.
pub open spec fn difference(xs: Seq<Seq<char>>, ys: Seq<Seq<char>>) -> Seq<Seq<char>>
    decreases xs.len(),
{
    if xs.len() == 0 {
        seq![]
    } else if ys.contains(xs.last()) {
        difference(xs.drop_last(), ys)
    } else {
        difference(xs.drop_last(), ys).push(xs.last())
    }
}

/// What the sidecar lacks and what it holds in excess: with no sidecar,
/// every source is new; otherwise the sorted differences both ways.
pub open spec fn spec_source_delta(sidecar: Option<Seq<char>>, sources: Seq<Seq<char>>) -> Result<(Seq<Seq<char>>, Seq<Seq<char>>), Seq<char>> {
    match sidecar {
        None => Ok((sources, seq![])),
        Some(raw) => match spec_sidecar_sources(raw) {
            Err(m) => Err(m),
            Ok(present) => {
                let expected = sorted_distinct(sources);
                Ok((difference(expected, present), difference(present, expected)))
            },
        },
    }
}

/// The items of `xs` that `ys` does not hold.
fn difference_of(xs: &Vec<String>, ys: &Vec<String>) -> (r: Vec<String>)
    ensures
        texts(r@) == difference(texts(xs@), texts(ys@)),
{
    let ghost x = texts(xs@);
    let mut out: Vec<String> = Vec::new();
    let mut i: usize = 0;
    while i < xs.len()
        invariant
            i <= xs@.len(),
            x == texts(xs@),
            texts(out@) == difference(x.subrange(0, i as int), texts(ys@)),
        decreases xs@.len() - i,
    {
        assert(x.subrange(0, i + 1).drop_last() =~= x.subrange(0, i as int));
        assert(x.subrange(0, i + 1).last() == xs@[i as int]@);
        if !crate::merge::holds_text(ys, xs[i].as_str()) {
            let ghost before = texts(out@);
            out.push(copy_string(&xs[i]));
            assert(texts(out@) =~= before.push(xs@[i as int]@));
        }
        i = i + 1;
    }
    assert(x.subrange(0, i as int) =~= x);
    out
}

/// Compares the sources with what the sidecar (if any) records.
pub fn source_delta(sidecar: Option<&str>, sources: &Vec<String>) -> (r: Result<(Vec<String>, Vec<String>), String>)
    ensures
        match r {
            Ok((added, removed)) => spec_source_delta(match sidecar {
                Some(s) => Some(s@),
                None => None,
            }, texts(sources@)) == Ok::<(Seq<Seq<char>>, Seq<Seq<char>>), Seq<char>>((texts(added@), texts(removed@))),
            Err(m) => spec_source_delta(match sidecar {
                Some(s) => Some(s@),
                None => None,
            }, texts(sources@)) == Err::<(Seq<Seq<char>>, Seq<Seq<char>>), Seq<char>>(m@),
        },
{
    let raw = match sidecar {
        None => {
            let copy = crate::config::copy_strings(sources);
            let r: (Vec<String>, Vec<String>) = (copy, Vec::new());
            assert(texts(r.1@) =~= Seq::<Seq<char>>::empty());
            return Ok(r);
        },
        Some(raw) => raw,
    };
    let present = match parse_sidecar_sources(raw) {
        Ok(p) => p,
        Err(m) => {
            return Err(m);
        },
    };
    let expected = stable_union(crate::config::copy_strings(sources));
    let added = difference_of(&expected, &present);
    let removed = difference_of(&present, &expected);
    Ok((added, removed))
}

/// The pattern that finds the hash `nix flake prefetch` reports.
pub open spec fn prefetch_hash_pattern() -> Seq<char> {
    "hash '([^']+)'"@
}

/// The hash that `nix flake prefetch` reported in its output.
pub open spec fn spec_prefetch_hash(output: Seq<char>) -> Option<Seq<char>> {
    if regex_error(prefetch_hash_pattern()) is Some {
        None
    } else {
        regex_group_capture(prefetch_hash_pattern(), output, 1)
    }
}

/// Finds the hash that `nix flake prefetch` reported.
pub fn extract_prefetch_hash(output: &str) -> (r: Option<String>)
    ensures
        opt_text(r) == spec_prefetch_hash(output@),
{
    let re = match compile("hash '([^']+)'") {
        Ok(re) => re,
        Err(_) => {
            return None;
        },
    };
    group_capture(&re, output, 1)
}

/// The prefetched hash: from standard output, else from standard error.
pub fn prefetched_hash(stdout: &str, stderr: &str) -> (r: Result<String, String>)
    ensures
        match spec_prefetch_hash(stdout@) {
            Some(h) => r matches Ok(x) && x@ == h,
            None => match spec_prefetch_hash(stderr@) {
                Some(h) => r matches Ok(x) && x@ == h,
                None => r matches Err(m) && m@ == "nix flake prefetch output did not contain a hash"@,
            },
        },
{
    match extract_prefetch_hash(stdout) {
        Some(h) => Ok(h),
        None => match extract_prefetch_hash(stderr) {
            Some(h) => Ok(h),
            None => Err(owned("nix flake prefetch output did not contain a hash")),
        },
    }
}

/// The failure messages of the prefetches, in source order.
pub open spec fn prefetch_failures(sources: Seq<Seq<char>>, results: Seq<Result<(Seq<char>, Seq<char>), Seq<char>>>) -> Seq<Seq<char>>
    decreases results.len(),
{
    if results.len() == 0 {
        seq![]
    } else {
        let before = prefetch_failures(sources, results.drop_last());
        match results.last() {
            Err(m) => before.push(sources[results.len() - 1] + ": "@ + m),
            Ok(_) => before,
        }
    }
}

/// The prefetched hashes, in source order.
pub open spec fn prefetch_hashes(results: Seq<Result<(Seq<char>, Seq<char>), Seq<char>>>) -> Seq<(Seq<char>, Seq<char>)>
    decreases results.len(),
{
    if results.len() == 0 {
        seq![]
    } else {
        match results.last() {
            Ok(h) => prefetch_hashes(results.drop_last()).push(h),
            Err(_) => prefetch_hashes(results.drop_last()),
        }
    }
}

/// The view of a prefetch result.
pub open spec fn prefetch_view(r: Result<GitHash, String>) -> Result<(Seq<char>, Seq<char>), Seq<char>> {
    match r {
        Ok(h) => Ok((h.source@, h.hash@)),
        Err(m) => Err(m@),
    }
}

/// The views of a list of hashes.
pub open spec fn hash_views(v: Seq<GitHash>) -> Seq<(Seq<char>, Seq<char>)> {
    v.map_values(|h: GitHash| (h.source@, h.hash@))
}

/// Puts the prefetches together: every hash when all succeeded, else one
/// message that lists every failure.
pub fn collect_prefetched(sources: &Vec<String>, results: Vec<Result<GitHash, String>>) -> (r: Result<Vec<GitHash>, String>)
    requires
        results@.len() == sources@.len(),
    ensures
        ({
            let rs = results@.map_values(|x: Result<GitHash, String>| prefetch_view(x));
            let failures = prefetch_failures(texts(sources@), rs);
            match r {
                Ok(hashes) => failures.len() == 0 && hash_views(hashes@) == prefetch_hashes(rs),
                Err(m) => failures.len() > 0 && m@ == "cargo git dependency prefetch failed:\n"@ + join(failures, "\n"@),
            }
        }),
{
    let ghost rs = results@.map_values(|x: Result<GitHash, String>| prefetch_view(x));
    let ghost ss = texts(sources@);
    let mut hashes: Vec<GitHash> = Vec::new();
    let mut failures: Vec<String> = Vec::new();
    let mut results = results;
    let ghost all = results@;
    let mut taken: Vec<Result<GitHash, String>> = Vec::new();
    let n = results.len();
    let mut i: usize = 0;
    while i < n
        invariant
            n == all.len() == sources@.len(),
            i <= n,
            ss == texts(sources@),
            rs == all.map_values(|x: Result<GitHash, String>| prefetch_view(x)),
            results@ == all.subrange(i as int, n as int),
            hash_views(hashes@) == prefetch_hashes(rs.subrange(0, i as int)),
            texts(failures@) == prefetch_failures(ss, rs.subrange(0, i as int)),
        decreases n - i,
    {
        assert(rs.subrange(0, i + 1).drop_last() =~= rs.subrange(0, i as int));
        assert(rs.subrange(0, i + 1).last() == prefetch_view(all[i as int]));
        let item = results.remove(0);
        assert(results@ =~= all.subrange(i + 1, n as int));
        match item {
            Ok(h) => {
                let ghost before = hash_views(hashes@);
                let ghost hv = (h.source@, h.hash@);
                hashes.push(h);
                assert(hash_views(hashes@) =~= before.push(hv));
            },
            Err(m) => {
                let ghost before = texts(failures@);
                failures.push(join3(sources[i].as_str(), ": ", m.as_str()));
                assert(texts(failures@) =~= before.push(ss[i as int] + ": "@ + m@));
            },
        }
        i = i + 1;
    }
    assert(rs.subrange(0, i as int) =~= rs);
    if failures.len() == 0 {
        Ok(hashes)
    } else {
        Err(join2("cargo git dependency prefetch failed:\n", join_strings(&failures, "\n").as_str()))
    }
}

/// The escapes that keep a value literal inside a Nix string: backslashes
/// first, then interpolations, then quotes.
pub open spec fn spec_nix_string_escape(value: Seq<char>) -> Seq<char> {
    replace_all(replace_all(replace_all(value, "\\"@, "\\\\"@), "${"@, "\\${"@), "\""@, "\\\""@)
}

/// Escapes a value for a Nix string literal.
pub fn nix_string_escape(value: &str) -> (r: String)
    ensures
        r@ == spec_nix_string_escape(value@),
{
    proof {
        reveal_strlit("\\");
        reveal_strlit("${");
        reveal_strlit("\"");
    }
    let a = replace_all_text(value, "\\", "\\\\");
    let b = replace_all_text(a.as_str(), "${", "\\${");
    replace_all_text(b.as_str(), "\"", "\\\"")
}

/// A value on one comment line: line breaks become spaces.
pub open spec fn spec_nix_comment_escape(value: Seq<char>) -> Seq<char> {
    value.map_values(|c: char| if c == '\n' || c == '\r' { ' ' } else { c })
}

/// Escapes a value for a Nix comment line.
pub fn nix_comment_escape(value: &str) -> (r: String)
    ensures
        r@ == spec_nix_comment_escape(value@),
{
    let v = chars_of(value);
    let mut out = String::new();
    let mut i: usize = 0;
    while i < v.len()
        invariant
            v@ == value@,
            i <= v@.len(),
            out@ == spec_nix_comment_escape(v@.subrange(0, i as int)),
        decreases v@.len() - i,
    {
        let c = v[i];
        push_char(&mut out, if c == '\n' || c == '\r' { ' ' } else { c });
        assert(out@ =~= spec_nix_comment_escape(v@.subrange(0, i + 1)));
        i = i + 1;
    }
    assert(v@.subrange(0, i as int) =~= v@);
    out
}

/// The first eighty characters of a text.
pub open spec fn first_80(s: Seq<char>) -> Seq<char> {
    if s.len() <= 80 { s } else { s.subrange(0, 80) }
}

/// The sidecar lines of one prefetched source: a comment with its first
/// eighty characters, and its entry.
pub open spec fn sidecar_entry(source: Seq<char>, hash: Seq<char>) -> Seq<char> {
    "  # "@ + spec_nix_comment_escape(first_80(source)) + "\n"@
        + "  \""@ + spec_nix_string_escape(source) + "\" = \""@ + spec_nix_string_escape(hash) + "\";\n"@
}

/// The entries of every prefetched source, in order.
pub open spec fn sidecar_entries(hashes: Seq<(Seq<char>, Seq<char>)>) -> Seq<char>
    decreases hashes.len(),
{
    if hashes.len() == 0 {
        seq![]
    } else {
        sidecar_entries(hashes.drop_last()) + sidecar_entry(hashes.last().0, hashes.last().1)
    }
}

/// The sidecar after its first line: the pin's name, then the attribute set
/// of source hashes.
pub open spec fn spec_sidecar_body(name: Seq<char>, hashes: Seq<(Seq<char>, Seq<char>)>) -> Seq<char> {
    "# Source pin:  "@ + spec_nix_comment_escape(name) + "\n"@ + "{\n"@ + sidecar_entries(hashes) + "}\n"@
}

/// Renders the sidecar after its first line.
pub fn render_sidecar_body(name: &str, hashes: &Vec<GitHash>) -> (r: String)
    ensures
        r@ == spec_sidecar_body(name@, hash_views(hashes@)),
{
    let ghost hv = hash_views(hashes@);
    let mut out = join3("# Source pin:  ", nix_comment_escape(name).as_str(), "\n");
    out.append("{\n");
    let ghost head = out@;
    let mut i: usize = 0;
    while i < hashes.len()
        invariant
            i <= hashes@.len(),
            hv == hash_views(hashes@),
            out@ == head + sidecar_entries(hv.subrange(0, i as int)),
        decreases hashes@.len() - i,
    {
        let item = &hashes[i];
        let sv = chars_of(item.source.as_str());
        let end = if sv.len() <= 80 { sv.len() } else { 80 };
        let short = string_of_range(&sv, 0, end);
        assert(sv@.len() <= 80 ==> sv@.subrange(0, end as int) =~= sv@);
        let comment = join3("  # ", nix_comment_escape(short.as_str()).as_str(), "\n");
        let entry = join5("  \"", nix_string_escape(item.source.as_str()).as_str(), "\" = \"", nix_string_escape(item.hash.as_str()).as_str(), "\";\n");
        out.append(comment.as_str());
        out.append(entry.as_str());
        assert(hv.subrange(0, i + 1).drop_last() =~= hv.subrange(0, i as int));
        assert(hv.subrange(0, i + 1).last() == (item.source@, item.hash@));
        assert(out@ =~= head + sidecar_entries(hv.subrange(0, i + 1)));
        i = i + 1;
    }
    assert(hv.subrange(0, i as int) =~= hv);
    out.append("}\n");
    out
}

} // verus!
