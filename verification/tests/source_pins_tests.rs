use nix_cache_pin::source_pins::{
    check_workers, collect_prefetched, hex_value, nix_comment_escape, nix_string_escape, parse_cargo_git_sources,
    parse_sidecar_sources, percent_decode, prefetch_url, prefetched_hash, render_sidecar_body, source_delta,
    update_shortcut, GitHash, SourcePinsOptions, UpdateStatus,
};

fn options(dry_run: bool, workers: usize) -> SourcePinsOptions {
    SourcePinsOptions {
        name: "test".into(),
        lock_file: "Cargo.lock".into(),
        output_file: "hashes.nix".into(),
        nix_bin: "nix".into(),
        workers,
        dry_run,
    }
}

#[test]
fn parses_and_decodes_cargo_git_sources() {
    let sources =
        parse_cargo_git_sources(r#"source = "git+https://github.com/stempler/pklr?branch=fix%2Fpreserve#dda90""#).unwrap();
    assert_eq!(sources, ["git+https://github.com/stempler/pklr?branch=fix/preserve#dda90"]);
}

#[test]
fn builds_prefetch_urls_from_resolved_revisions() {
    assert_eq!(
        prefetch_url("git+https://codeberg.org/caniko/fleetix.git#abc").unwrap(),
        "git+https://codeberg.org/caniko/fleetix.git?rev=abc"
    );
    assert_eq!(
        prefetch_url("git+https://github.com/stempler/pklr?branch=fix/preserve#abc").unwrap(),
        "git+https://github.com/stempler/pklr?ref=fix/preserve&rev=abc"
    );
    assert_eq!(
        prefetch_url("git+https://example.test/repo?rev=short#full").unwrap(),
        "git+https://example.test/repo?rev=full"
    );
}

#[test]
fn nix_strings_escape_interpolation() {
    assert_eq!(nix_string_escape(r#"${value}\""#), r#"\${value}\\\""#);
}

#[test]
fn percent_decoding_rejects_short_escapes() {
    assert_eq!(percent_decode("a%2Fb").unwrap(), "a/b");
    assert_eq!(percent_decode("%C3%A9").unwrap(), "\u{e9}");
    assert_eq!(percent_decode("ab%2").unwrap_err(), "invalid percent escape in cargo git source: ab%2");
    assert_eq!(percent_decode("%zz").unwrap_err(), "invalid percent escape in cargo git source: %zz");
    assert_eq!(percent_decode("%ff").unwrap_err(), "decoded cargo git source is not UTF-8");
}

#[test]
fn hex_digits_in_both_cases() {
    assert_eq!(hex_value(b'7'), Some(7));
    assert_eq!(hex_value(b'b'), Some(11));
    assert_eq!(hex_value(b'F'), Some(15));
    assert_eq!(hex_value(b'g'), None);
}

#[test]
fn sources_are_sorted_and_distinct() {
    let raw = "source = \"git+https://b#2\"\n  source = \"git+https://a#1\"\nsource = \"git+https://b#2\"\n";
    let sources = parse_cargo_git_sources(raw).unwrap();
    assert_eq!(sources, ["git+https://a#1", "git+https://b#2"]);
}

#[test]
fn delta_against_the_sidecar() {
    let sources = vec!["git+https://a#1".to_string(), "git+https://b#2".to_string()];
    let (added, removed) = source_delta(None, &sources).unwrap();
    assert_eq!(added, sources);
    assert!(removed.is_empty());
    let sidecar = "{\n  \"git+https://b#2\" = \"h\";\n  \"git+https://stale#0\" = \"h\";\n}\n";
    assert_eq!(parse_sidecar_sources(sidecar).unwrap(), ["git+https://b#2", "git+https://stale#0"]);
    let (added, removed) = source_delta(Some(sidecar), &sources).unwrap();
    assert_eq!(added, ["git+https://a#1"]);
    assert_eq!(removed, ["git+https://stale#0"]);
}

#[test]
fn update_shortcuts() {
    assert_eq!(update_shortcut(&options(false, 1), true, 0, 0), Some(UpdateStatus::Current));
    assert_eq!(update_shortcut(&options(true, 1), true, 1, 0), Some(UpdateStatus::WouldUpdate { added: 1, removed: 0 }));
    assert_eq!(update_shortcut(&options(false, 1), false, 0, 0), None);
    assert!(check_workers(&options(false, 0)).is_err());
    assert!(check_workers(&options(false, 2)).is_ok());
}

#[test]
fn prefetch_hash_from_either_stream() {
    assert_eq!(prefetched_hash("Downloaded 'x' to '/nix/store/y' (hash 'sha256-abc').", "").unwrap(), "sha256-abc");
    assert_eq!(prefetched_hash("", "hash 'sha256-def'").unwrap(), "sha256-def");
    assert_eq!(prefetched_hash("", "").unwrap_err(), "nix flake prefetch output did not contain a hash");
}

#[test]
fn prefetch_failures_are_collected() {
    let sources = vec!["s1".to_string(), "s2".to_string()];
    let ok = collect_prefetched(
        &sources,
        vec![Ok(GitHash { source: "s1".into(), hash: "h1".into() }), Ok(GitHash { source: "s2".into(), hash: "h2".into() })],
    )
    .unwrap();
    assert_eq!(ok.len(), 2);
    let err = collect_prefetched(&sources, vec![Err("boom".into()), Ok(GitHash { source: "s2".into(), hash: "h2".into() })])
        .unwrap_err();
    assert_eq!(err, "cargo git dependency prefetch failed:\ns1: boom");
}

#[test]
fn sidecar_body_escapes_entries() {
    assert_eq!(nix_comment_escape("a\nb\rc"), "a b c");
    let body = render_sidecar_body("pin\nname", &vec![GitHash { source: "git+https://x#\"1\"".into(), hash: "sha256-a".into() }]);
    assert_eq!(
        body,
        "# Source pin:  pin name\n{\n  # git+https://x#\"1\"\n  \"git+https://x#\\\"1\\\"\" = \"sha256-a\";\n}\n"
    );
}
