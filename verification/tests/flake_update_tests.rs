use nix_cache_pin::flake_update::{
    lock_update_plan, read_current_rev, read_locked_rev, reachable_nodes, replace_rev, LockFile, LockMerge,
    UpdatedInput,
};
use nix_cache_pin::textmap::TextMap;

#[test]
fn test_read_current_rev() {
    let content = r#"
{
  inputs = {
    nixpkgs-rocm.url = "github:NixOS/nixpkgs/abc123def456789012345678901234567890abcd";
  };
  outputs = _: {};
}
"#;
    let rev = read_current_rev(content, "nixpkgs-rocm", "github:NixOS/nixpkgs").unwrap();
    assert_eq!(rev, "abc123def456789012345678901234567890abcd");
}

#[test]
fn test_read_current_rev_git_plus() {
    let content = r#"
{
  inputs = {
    my-input.url = "git+https://gitlab.com/foo/bar?rev=abc123def456789012345678901234567890abcd";
  };
}
"#;
    let rev = read_current_rev(content, "my-input", "git+https://gitlab.com/foo/bar").unwrap();
    assert_eq!(rev, "abc123def456789012345678901234567890abcd");
}

#[test]
fn test_read_current_rev_block_format() {
    let content = r#"
{
  inputs = {
    nix-cachyos-kernel = {
      url = "github:xddxdd/nix-cachyos-kernel/1fba6b310fc783186697bf5e27e3bea5b1e6def4";
      inputs.flake-parts.follows = "flake-parts";
    };
  };
}
"#;
    let rev = read_current_rev(content, "nix-cachyos-kernel", "github:xddxdd/nix-cachyos-kernel").unwrap();
    assert_eq!(rev, "1fba6b310fc783186697bf5e27e3bea5b1e6def4");
}

#[test]
fn test_read_current_rev_not_found() {
    let content = r#"{ inputs = {}; }"#;
    assert!(read_current_rev(content, "nixpkgs", "github:NixOS/nixpkgs").is_err());
}

#[test]
fn test_read_current_locked_rev() {
    let mut root_inputs = TextMap::new();
    root_inputs.insert("nixpkgs".to_string(), "nixpkgs_1".to_string());
    let mut locked_revs = TextMap::new();
    locked_revs.insert("nixpkgs_1".to_string(), "abc123".to_string());
    let lock = LockFile { root_inputs, locked_revs };
    assert_eq!(read_locked_rev(&lock, "nixpkgs").unwrap(), "abc123");
}

#[test]
fn locked_rev_errors_name_the_input() {
    let lock = LockFile { root_inputs: TextMap::new(), locked_revs: TextMap::new() };
    let err = read_locked_rev(&lock, "nixpkgs").unwrap_err();
    assert_eq!(err.message(), "flake.nix error: lock file has no root input 'nixpkgs'");
}

#[test]
fn test_merge_lock_update_only_copies_selected_reachable_nodes() {
    // The temporary lock points nixpkgs at nixpkgs_2; unrelated_2 is not
    // reachable from it and must not be copied.
    let mut nodes: TextMap<Vec<String>> = TextMap::new();
    nodes.insert("root".into(), vec!["nixpkgs_2".into(), "unrelated_1".into()]);
    nodes.insert("nixpkgs_2".into(), vec![]);
    nodes.insert("unrelated_2".into(), vec![]);
    let mut changed = TextMap::new();
    changed.insert("nixpkgs_2".to_string(), ());
    changed.insert("unrelated_2".to_string(), ());
    let merge = LockMerge {
        updated_input: UpdatedInput::Node("nixpkgs_2".into()),
        baseline_has_root_inputs: true,
        baseline_has_nodes: true,
        updated_nodes: Some(nodes),
        changed,
    };
    let plan = lock_update_plan("nixpkgs", &merge).unwrap();
    assert_eq!(plan.node, "nixpkgs_2");
    assert_eq!(plan.copy, vec!["nixpkgs_2".to_string()]);
    assert!(!plan.reachable.contains(&"unrelated_2".to_string()));
}

#[test]
fn merge_lock_update_reports_missing_reachable_node() {
    let mut nodes: TextMap<Vec<String>> = TextMap::new();
    nodes.insert("nixpkgs_2".into(), vec!["gone".into()]);
    let merge = LockMerge {
        updated_input: UpdatedInput::Node("nixpkgs_2".into()),
        baseline_has_root_inputs: true,
        baseline_has_nodes: true,
        updated_nodes: Some(nodes),
        changed: TextMap::new(),
    };
    let err = lock_update_plan("nixpkgs", &merge).unwrap_err();
    assert_eq!(err.message(), "flake.nix error: temporary lock is missing reachable node 'gone'");
}

#[test]
fn merge_lock_update_checks_the_input_first() {
    let merge = LockMerge {
        updated_input: UpdatedInput::NotNodeName,
        baseline_has_root_inputs: false,
        baseline_has_nodes: false,
        updated_nodes: None,
        changed: TextMap::new(),
    };
    let err = lock_update_plan("nixpkgs", &merge).unwrap_err();
    assert_eq!(err.message(), "flake.nix error: temporary lock input 'nixpkgs' is not a node name");
}

#[test]
fn reachable_nodes_visit_each_node_once() {
    let mut nodes: TextMap<Vec<String>> = TextMap::new();
    nodes.insert("a".into(), vec!["b".into(), "c".into()]);
    nodes.insert("b".into(), vec!["c".into(), "a".into()]);
    nodes.insert("c".into(), vec![]);
    nodes.insert("d".into(), vec!["a".into()]);
    let order = reachable_nodes(&nodes, "a").unwrap();
    assert_eq!(order, vec!["a".to_string(), "b".to_string(), "c".to_string()]);
}

#[test]
fn test_replace_rev() {
    let content = r#"nixpkgs-rocm.url = "github:NixOS/nixpkgs/oldrev123";"#;
    let updated = replace_rev(content, "github:NixOS/nixpkgs", "oldrev123", "newrev456");
    assert_eq!(updated, r#"nixpkgs-rocm.url = "github:NixOS/nixpkgs/newrev456";"#);
}

#[test]
fn replace_rev_changes_only_the_first_occurrence() {
    let content = "github:NixOS/nixpkgs/old github:NixOS/nixpkgs/old";
    let updated = replace_rev(content, "github:NixOS/nixpkgs", "old", "new");
    assert_eq!(updated, "github:NixOS/nixpkgs/new github:NixOS/nixpkgs/old");
}
