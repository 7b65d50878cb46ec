use nix_cache_pin::flakeref::{append_rev, extract_github_repo, flake_ref_rev_pattern};

#[test]
fn test_append_rev_github() {
    assert_eq!(append_rev("github:NixOS/nixpkgs", "abc123"), "github:NixOS/nixpkgs/abc123");
}

#[test]
fn test_append_rev_gitlab() {
    assert_eq!(append_rev("gitlab:foo/bar", "def456"), "gitlab:foo/bar/def456");
}

#[test]
fn test_append_rev_git_https() {
    assert_eq!(
        append_rev("git+https://gitlab.com/foo/bar", "abc123"),
        "git+https://gitlab.com/foo/bar?rev=abc123"
    );
}

#[test]
fn test_append_rev_git_ssh() {
    assert_eq!(
        append_rev("git+ssh://git@github.com/foo/bar", "abc"),
        "git+ssh://git@github.com/foo/bar?rev=abc"
    );
}

#[test]
fn test_flake_ref_rev_pattern_github() {
    let pattern = flake_ref_rev_pattern("github:NixOS/nixpkgs");
    assert!(pattern.contains("(?P<rev>[0-9a-f]+)"));
    assert!(pattern.ends_with("(?P<rev>[0-9a-f]+)"));

    let re = regex::Regex::new(&pattern).unwrap();
    let url = r#"github:NixOS/nixpkgs/abc123def456"#;
    let caps = re.captures(url).unwrap();
    assert_eq!(&caps["rev"], "abc123def456");
}

#[test]
fn test_flake_ref_rev_pattern_in_flake_nix() {
    let pattern = flake_ref_rev_pattern("github:NixOS/nixpkgs");
    let input_pattern = format!(r#"nixpkgs\-rocm\.url = "{pattern}""#);
    let re = regex::Regex::new(&input_pattern).unwrap();

    let test_url = r#"nixpkgs-rocm.url = "github:NixOS/nixpkgs/abc123def456""#;
    let caps = re.captures(test_url).unwrap();
    assert_eq!(&caps["rev"], "abc123def456");
}

#[test]
fn test_flake_ref_rev_pattern_git_https() {
    let pattern = flake_ref_rev_pattern("git+https://gitlab.com/foo/bar");
    let re = regex::Regex::new(&pattern).unwrap();

    let url = "git+https://gitlab.com/foo/bar?rev=abc123def456";
    let caps = re.captures(url).unwrap();
    assert_eq!(&caps["rev"], "abc123def456");
}

#[test]
fn test_extract_github_repo() {
    assert_eq!(extract_github_repo("github:NixOS/nixpkgs").as_deref(), Some("NixOS/nixpkgs"));
    assert_eq!(
        extract_github_repo("github:xddxdd/nix-cachyos-kernel").as_deref(),
        Some("xddxdd/nix-cachyos-kernel")
    );
}

#[test]
fn test_extract_github_repo_non_github() {
    assert_eq!(extract_github_repo("git+https://gitlab.com/foo/bar"), None);
}

#[test]
fn rev_pattern_escapes_meta_characters() {
    let pattern = flake_ref_rev_pattern("git+https://example.test/a.b?x");
    assert_eq!(pattern, r"git\+https://example\.test/a\.b\?x\?rev=(?P<rev>[0-9a-f]+)");
}
