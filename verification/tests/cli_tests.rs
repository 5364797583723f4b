use apibump::backend::{ParameterSnapshot, SymbolKind, SymbolSnapshot};
use apibump::cli::{
    apply_ignore_rules, classify_parameter_changes, classify_snapshot_changes, compile_ignore_rule,
    should_fail, FailOn,
};
use apibump::config::IgnoreRule;
use apibump::model::{ApiChange, ApiReport, PackageReport, Severity};

#[test]
fn fail_on_breaking_ignores_unknown_reports() {
    let report = ApiReport::backend_unknown("missing griffe", "griffe");

    assert!(!should_fail(&report, FailOn::Breaking));
    assert!(should_fail(&report, FailOn::Unknown));
}

#[test]
fn fail_on_breaking_fails_for_breakages() {
    let report = ApiReport::from_packages(
        vec![PackageReport::new(
            "pkg",
            vec![ApiChange {
                package: Some("pkg".to_string()),
                severity: Severity::Breaking,
                kind: "object_removed".to_string(),
                symbol: "pkg.removed".to_string(),
                file: None,
                line: None,
                message: "Public object was removed".to_string(),
                backend: "griffe".to_string(),
            }],
            vec![],
        )],
        vec![],
    );

    assert!(should_fail(&report, FailOn::Breaking));
}

#[test]
fn classifies_optional_parameter_additions() {
    let changes = classify_parameter_changes(
        "pkg",
        "pkg.api.create_user",
        &vec![ParameterSnapshot {
            name: "name".to_string(),
            kind: "ParameterKind.positional_or_keyword".to_string(),
            required: true,
        }],
        &vec![
            ParameterSnapshot {
                name: "name".to_string(),
                kind: "ParameterKind.positional_or_keyword".to_string(),
                required: true,
            },
            ParameterSnapshot {
                name: "email".to_string(),
                kind: "ParameterKind.keyword_only".to_string(),
                required: false,
            },
        ],
    );

    assert_eq!(changes.len(), 1);
    assert_eq!(changes[0].kind, "parameter_added_optional");
    assert_eq!(changes[0].severity, Severity::Additive);
}

#[test]
fn classifies_unknown_non_prefix_parameter_changes() {
    let changes = classify_parameter_changes(
        "pkg",
        "pkg.api.create_user",
        &vec![ParameterSnapshot {
            name: "name".to_string(),
            kind: "ParameterKind.positional_or_keyword".to_string(),
            required: true,
        }],
        &vec![
            ParameterSnapshot {
                name: "email".to_string(),
                kind: "ParameterKind.keyword_only".to_string(),
                required: false,
            },
            ParameterSnapshot {
                name: "name".to_string(),
                kind: "ParameterKind.positional_or_keyword".to_string(),
                required: true,
            },
        ],
    );

    assert_eq!(changes.len(), 1);
    assert_eq!(changes[0].kind, "signature_changed");
    assert_eq!(changes[0].severity, Severity::Unknown);
}

#[test]
fn ignore_rules_suppress_matching_changes() {
    let rules = vec![compile_ignore_rule(&IgnoreRule {
        symbol: "pkg.api.*".to_string(),
        kind: Some("parameter_removed".to_string()),
        package: Some("pkg".to_string()),
        reason: None,
    })
    .unwrap()];
    let change = ApiChange {
        package: Some("pkg".to_string()),
        severity: Severity::Breaking,
        kind: "parameter_removed".to_string(),
        symbol: "pkg.api.create_user".to_string(),
        file: None,
        line: None,
        message: "removed".to_string(),
        backend: "griffe".to_string(),
    };

    let (active, suppressed) = apply_ignore_rules(vec![change], &rules);
    assert!(active.is_empty());
    assert_eq!(suppressed.len(), 1);
}

#[test]
fn snapshot_additions_skip_descendants_of_added_parents() {
    let changes = classify_snapshot_changes(
        "pkg",
        &vec![],
        &vec![
            SymbolSnapshot {
                path: "pkg.models".to_string(),
                parent_path: "pkg".to_string(),
                kind: SymbolKind::Module,
                parameters: vec![],
            },
            SymbolSnapshot {
                path: "pkg.models.User".to_string(),
                parent_path: "pkg.models".to_string(),
                kind: SymbolKind::Class,
                parameters: vec![],
            },
        ],
        &Vec::new(),
    );

    assert_eq!(changes.len(), 1);
    assert_eq!(changes[0].symbol, "pkg.models");
}
