use nix_cache_pin::config::VersionConstraint;
use nix_cache_pin::version::{evaluate_version_rule, matches_constraint, normalize_version, split_operator, Operator};

fn rule(target: Option<&str>, taints: &[&str]) -> VersionConstraint {
    VersionConstraint {
        target: target.map(ToOwned::to_owned),
        taints: taints.iter().map(|s| s.to_string()).collect(),
        version_attr: "version".into(),
    }
}

#[test]
fn test_exact_constraint() {
    assert!(matches_constraint("7.0.8", "7.0.8").unwrap());
    assert!(matches_constraint("7", "7.0.0").unwrap());
    assert!(!matches_constraint("7.0.9", "7.0.8").unwrap());
}

#[test]
fn test_comparison_constraint() {
    assert!(matches_constraint("7.0.6", "< 7.0.8").unwrap());
    assert!(!matches_constraint("7.0.9", "< 7.0.8").unwrap());
    assert!(matches_constraint("7.0.9-cachyos-lto", ">= 7.0.8").unwrap());
}

#[test]
fn test_not_equal_and_comma_range() {
    assert!(matches_constraint("7.0.7", ">= 7.0.6, < 7.0.8").unwrap());
    assert!(!matches_constraint("7.0.8", ">= 7.0.6, < 7.0.8").unwrap());
    assert!(matches_constraint("7.0.9", "!= 7.0.8").unwrap());
    assert!(!matches_constraint("7.0.8", "!= 7.0.8").unwrap());
}

#[test]
fn test_tilde_and_caret_constraints() {
    assert!(matches_constraint("7.0.9", "~7.0.8").unwrap());
    assert!(matches_constraint("7.1.0", "^7.0.8").unwrap());
    assert!(!matches_constraint("8.0.0", "^7.0.8").unwrap());
}

#[test]
fn test_evaluate_target_and_taints() {
    let allowed = evaluate_version_rule("7.0.6", &rule(Some("< 7.0.8"), &[">= 7.0.8"])).unwrap();
    assert!(allowed.is_allowed());

    let rejected = evaluate_version_rule("7.0.9", &rule(Some("< 7.0.8"), &[">= 7.0.8"])).unwrap();
    assert_eq!(rejected.rejected_by.len(), 2);
}

#[test]
fn empty_constraint_is_an_error() {
    assert!(matches_constraint("7.0.8", " , ").is_err());
}

#[test]
fn version_without_digits_is_an_error() {
    assert!(matches_constraint("unstable", ">= 1.0.0").is_err());
    assert!(normalize_version("unstable").is_err());
}

#[test]
fn normalize_pads_missing_components() {
    let v = normalize_version("7").unwrap();
    assert_eq!((v.major, v.minor, v.patch), (7, 0, 0));
    let v = normalize_version("6.12.3-rc1").unwrap();
    assert_eq!((v.major, v.minor, v.patch), (6, 12, 3));
}

#[test]
fn split_operator_takes_the_longest_prefix() {
    let (op, rest) = split_operator(">= 7.0.8");
    assert!(op == Some(Operator::GreaterEq));
    assert_eq!(rest, "7.0.8");
    let (op, rest) = split_operator("7.0.8");
    assert!(op.is_none());
    assert_eq!(rest, "7.0.8");
}

#[test]
fn constraint_parts_conjoin_and_not_equal_negates() {
    assert_eq!(matches_constraint("1.2.3", ">= 1.0.0, < 2.0.0").unwrap(), true);
    assert_eq!(matches_constraint("2.1.0", ">= 1.0.0, < 2.0.0").unwrap(), false);
    assert_eq!(matches_constraint("1.2.3", "1.2.3").unwrap(), true);
    assert_eq!(matches_constraint("1.2.3", "!= 1.2.3").unwrap(), false);
    assert_eq!(matches_constraint("1.2.4", "!= 1.2.3").unwrap(), true);
    assert!(matches_constraint("1.2.3", " , ").is_err());
}
