use apibump::backend::{
    BackendError, BreakingChange, ParameterSnapshot, PythonBackendResult, SymbolKind, SymbolSnapshot,
};
use apibump::cli::{
    ancestor_paths, apply_ignore_rules, build_package_report, classify_parameter_changes,
    classify_snapshot_changes, compile_ignore_rule, compile_ignore_rules, effective_fail_on,
    evaluate_python_package, exit_code, has_added_ancestor, has_breaking_ancestor, ignore_rule_matches,
    map_config_fail_on, selection_mode, should_fail, sort_changes, symbol_kind_label,
    to_breaking_api_change, unknown_signature_change, CheckError, FailOn, SelectedPackage,
};
use apibump::config::{ApibumpConfig, ConfigDefaults, ConfigFailOn, IgnoreRule, SelectionMode};
use apibump::model::{ApiChange, ApiReport, Diagnostic, Recommendation, Severity};

fn param(name: &str, kind: &str, required: bool) -> ParameterSnapshot {
    ParameterSnapshot { name: name.to_string(), kind: kind.to_string(), required }
}

fn symbol(path: &str, parent: &str, kind: SymbolKind, parameters: Vec<ParameterSnapshot>) -> SymbolSnapshot {
    SymbolSnapshot { path: path.to_string(), parent_path: parent.to_string(), kind, parameters }
}

fn api_change(package: &str, severity: Severity, kind: &str, symbol: &str, message: &str) -> ApiChange {
    ApiChange {
        package: Some(package.to_string()),
        severity,
        kind: kind.to_string(),
        symbol: symbol.to_string(),
        file: None,
        line: None,
        message: message.to_string(),
        backend: "apibump".to_string(),
    }
}

fn rule(symbol: &str, kind: Option<&str>, package: Option<&str>) -> IgnoreRule {
    IgnoreRule {
        symbol: symbol.to_string(),
        kind: kind.map(|k| k.to_string()),
        package: package.map(|p| p.to_string()),
        reason: None,
    }
}

fn config(fail_on: Option<ConfigFailOn>, selection: Option<SelectionMode>, ignore: Vec<IgnoreRule>) -> ApibumpConfig {
    ApibumpConfig {
        path: "apibump.toml".to_string(),
        version: 1,
        defaults: ConfigDefaults { language: None, selection, fail_on },
        packages: vec![],
        ignore,
    }
}

fn selected(changed: bool) -> SelectedPackage {
    SelectedPackage {
        package: "pkg".to_string(),
        search: vec!["src".to_string()],
        roots: vec!["src/pkg".to_string()],
        changed,
    }
}

const POSITIONAL: &str = "ParameterKind.positional_or_keyword";
const KEYWORD: &str = "ParameterKind.keyword_only";

#[test]
fn identical_parameters_give_no_change() {
    let params = vec![param("name", POSITIONAL, true)];
    assert!(classify_parameter_changes("pkg", "pkg.f", &params, &params.clone()).is_empty());
}

#[test]
fn parameters_that_become_optional_are_additive() {
    let changes = classify_parameter_changes(
        "pkg",
        "pkg.f",
        &vec![param("name", POSITIONAL, true)],
        &vec![param("name", POSITIONAL, false)],
    );
    assert_eq!(changes.len(), 1);
    assert_eq!(changes[0].kind, "parameter_became_optional");
    assert_eq!(changes[0].message, "Parameter name became optional");
    assert_eq!(changes[0].severity, Severity::Additive);
    assert_eq!(changes[0].backend, "apibump");
}

#[test]
fn removed_retyped_or_required_parameters_are_unknown() {
    let old = vec![param("name", POSITIONAL, true), param("email", KEYWORD, false)];
    let removed = classify_parameter_changes("pkg", "pkg.f", &old, &vec![param("name", POSITIONAL, true)]);
    assert_eq!(removed, vec![unknown_signature_change("pkg", "pkg.f")]);
    let retyped = classify_parameter_changes(
        "pkg",
        "pkg.f",
        &old,
        &vec![param("name", KEYWORD, true), param("email", KEYWORD, false)],
    );
    assert_eq!(retyped[0].kind, "signature_changed");
    let now_required = classify_parameter_changes(
        "pkg",
        "pkg.f",
        &old,
        &vec![param("name", POSITIONAL, true), param("email", KEYWORD, true)],
    );
    assert_eq!(now_required.len(), 1);
    assert_eq!(now_required[0].kind, "signature_changed");
    let new_required = classify_parameter_changes(
        "pkg",
        "pkg.f",
        &old,
        &vec![param("name", POSITIONAL, true), param("email", KEYWORD, false), param("x", KEYWORD, true)],
    );
    assert_eq!(new_required[0].kind, "signature_changed");
    let variadic = classify_parameter_changes(
        "pkg",
        "pkg.f",
        &old,
        &vec![
            param("name", POSITIONAL, true),
            param("email", KEYWORD, false),
            param("args", "ParameterKind.var_positional", false),
        ],
    );
    assert_eq!(variadic[0].kind, "signature_changed");
}

#[test]
fn unknown_signature_changes_name_the_symbol() {
    let change = unknown_signature_change("pkg", "pkg.f");
    assert_eq!(change.package.as_deref(), Some("pkg"));
    assert_eq!(change.severity, Severity::Unknown);
    assert_eq!(change.kind, "signature_changed");
    assert_eq!(change.symbol, "pkg.f");
    assert_eq!(change.message, "Signature changed in a non-breaking but unclassified way");
}

#[test]
fn lists_ancestor_paths_nearest_first() {
    assert_eq!(ancestor_paths("a.b.c"), vec!["a.b".to_string(), "a".to_string()]);
    assert!(ancestor_paths("a").is_empty());
    assert!(has_added_ancestor("a.b.c", &vec!["a".to_string()]));
    assert!(!has_added_ancestor("a.b.c", &vec!["a.b.c".to_string()]));
    assert!(has_breaking_ancestor("a.b.c", &vec!["a.b".to_string()]));
    assert!(!has_breaking_ancestor("a.bc", &vec!["a.b".to_string()]));
}

#[test]
fn labels_symbol_kinds() {
    assert_eq!(symbol_kind_label(&SymbolKind::Module), "module");
    assert_eq!(symbol_kind_label(&SymbolKind::Class), "class");
    assert_eq!(symbol_kind_label(&SymbolKind::Function), "function");
    assert_eq!(symbol_kind_label(&SymbolKind::Method), "method");
    assert_eq!(symbol_kind_label(&SymbolKind::Attribute), "attribute");
    assert_eq!(symbol_kind_label(&SymbolKind::Alias), "alias");
}

#[test]
fn classifies_snapshot_additions_and_changes() {
    let old = vec![
        symbol("pkg.f", "pkg", SymbolKind::Function, vec![param("a", POSITIONAL, true)]),
        symbol("pkg.Thing", "pkg", SymbolKind::Class, vec![]),
        symbol("pkg.gone", "pkg", SymbolKind::Class, vec![]),
        symbol("pkg.gone.method", "pkg.gone", SymbolKind::Method, vec![]),
    ];
    let new = vec![
        symbol("pkg.f", "pkg", SymbolKind::Function, vec![param("a", POSITIONAL, false)]),
        symbol("pkg.Thing", "pkg", SymbolKind::Attribute, vec![]),
        symbol("pkg.gone", "pkg", SymbolKind::Class, vec![]),
        symbol("pkg.gone.method", "pkg.gone", SymbolKind::Method, vec![param("x", KEYWORD, true)]),
        symbol("pkg.Added", "pkg", SymbolKind::Class, vec![]),
    ];
    let changes = classify_snapshot_changes("pkg", &old, &new, &vec!["pkg.gone".to_string()]);
    assert_eq!(changes.len(), 3);
    assert_eq!(changes[0].kind, "object_added");
    assert_eq!(changes[0].symbol, "pkg.Added");
    assert_eq!(changes[0].message, "Public class was added");
    assert_eq!(changes[1].kind, "object_changed");
    assert_eq!(changes[1].symbol, "pkg.Thing");
    assert_eq!(changes[1].severity, Severity::Unknown);
    assert_eq!(changes[2].kind, "parameter_became_optional");
    assert_eq!(changes[2].symbol, "pkg.f");
}

#[test]
fn sorts_changes_by_symbol_kind_and_message() {
    let changes = vec![
        api_change("pkg", Severity::Additive, "object_added", "pkg.b", "m"),
        api_change("pkg", Severity::Breaking, "object_removed", "pkg.a", "z"),
        api_change("pkg", Severity::Breaking, "object_removed", "pkg.a", "a"),
        api_change("pkg", Severity::Unknown, "object_changed", "pkg.a", "q"),
    ];
    let sorted = sort_changes(changes);
    let order: Vec<(&str, &str, &str)> = sorted
        .iter()
        .map(|c| (c.symbol.as_str(), c.kind.as_str(), c.message.as_str()))
        .collect();
    assert_eq!(
        order,
        vec![
            ("pkg.a", "object_changed", "q"),
            ("pkg.a", "object_removed", "a"),
            ("pkg.a", "object_removed", "z"),
            ("pkg.b", "object_added", "m"),
        ]
    );
}

#[test]
fn breaking_backend_changes_become_breaking_api_changes() {
    let change = to_breaking_api_change(
        "pkg",
        BreakingChange {
            kind: "parameter_removed".to_string(),
            symbol: "pkg.f".to_string(),
            file: Some("src/pkg/f.py".to_string()),
            line: Some(3),
            message: "Parameter was removed".to_string(),
            backend: "griffe".to_string(),
        },
    );
    assert_eq!(change.package.as_deref(), Some("pkg"));
    assert_eq!(change.severity, Severity::Breaking);
    assert_eq!(change.kind, "parameter_removed");
    assert_eq!(change.file.as_deref(), Some("src/pkg/f.py"));
    assert_eq!(change.line, Some(3));
    assert_eq!(change.backend, "griffe");
}

#[test]
fn ignore_rules_filter_by_kind_and_package() {
    let by_kind = compile_ignore_rule(&rule("pkg.*", Some("object_removed"), None)).unwrap();
    let by_package = compile_ignore_rule(&rule("*", None, Some("other"))).unwrap();
    let change = api_change("pkg", Severity::Breaking, "parameter_removed", "pkg.f", "m");
    assert!(!ignore_rule_matches(&by_kind, &change));
    assert!(!ignore_rule_matches(&by_package, &change));
    let open = compile_ignore_rule(&rule("pkg.*", None, None)).unwrap();
    assert!(ignore_rule_matches(&open, &change));
    let other_symbol = api_change("pkg", Severity::Breaking, "parameter_removed", "lib.f", "m");
    assert!(!ignore_rule_matches(&open, &other_symbol));
}

#[test]
fn ignore_rules_partition_changes_in_order() {
    let rules = vec![compile_ignore_rule(&rule("pkg.legacy.*", None, None)).unwrap()];
    let changes = vec![
        api_change("pkg", Severity::Breaking, "object_removed", "pkg.legacy.a", "1"),
        api_change("pkg", Severity::Additive, "object_added", "pkg.new", "2"),
        api_change("pkg", Severity::Breaking, "object_removed", "pkg.legacy.b", "3"),
    ];
    let (active, suppressed) = apply_ignore_rules(changes, &rules);
    assert_eq!(active.len() + suppressed.len(), 3);
    assert_eq!(active[0].message, "2");
    assert_eq!(suppressed[0].message, "1");
    assert_eq!(suppressed[1].message, "3");
}

#[test]
fn invalid_ignore_patterns_are_refused() {
    let error = compile_ignore_rule(&rule("pkg.[", None, None)).unwrap_err();
    match &error {
        CheckError::InvalidIgnorePattern { pattern, .. } => assert_eq!(pattern, "pkg.["),
        other => panic!("unexpected error {other:?}"),
    }
    assert_eq!(error.message(), "invalid ignore symbol pattern pkg.[");
    let config = config(None, None, vec![rule("ok.*", None, None), rule("bad[", None, None)]);
    assert!(compile_ignore_rules(Some(&config)).is_err());
    assert_eq!(compile_ignore_rules(None).unwrap().len(), 0);
}

#[test]
fn backend_check_errors_carry_the_backend_message() {
    let error = CheckError::Backend(BackendError::Failed("boom".to_string()));
    assert_eq!(error.message(), "Python backend failed: boom");
}

#[test]
fn package_reports_record_internal_only_changes() {
    let result = PythonBackendResult {
        breaking_changes: vec![],
        old_snapshot: vec![],
        new_snapshot: vec![],
        diagnostics: vec![],
    };
    let changed = vec!["src/pkg/api.py".to_string()];
    let report = build_package_report(&selected(true), result.clone(), &changed, &vec![]);
    assert_eq!(report.changes.len(), 1);
    assert_eq!(report.changes[0].kind, "internal_only");
    assert_eq!(report.changes[0].symbol, "pkg");
    assert_eq!(report.changes[0].severity, Severity::Internal);
    assert_eq!(report.changes[0].message, "Files changed without a public API change");
    assert_eq!(report.recommendation, Recommendation::Patch);

    let untouched = build_package_report(&selected(false), result, &changed, &vec![]);
    assert!(untouched.changes.is_empty());
}

#[test]
fn package_reports_sort_and_suppress_backend_changes() {
    let result = PythonBackendResult {
        breaking_changes: vec![BreakingChange {
            kind: "object_removed".to_string(),
            symbol: "pkg.z".to_string(),
            file: None,
            line: None,
            message: "Public object was removed".to_string(),
            backend: "griffe".to_string(),
        }],
        old_snapshot: vec![],
        new_snapshot: vec![symbol("pkg.a", "pkg", SymbolKind::Function, vec![])],
        diagnostics: vec![],
    };
    let rules = vec![compile_ignore_rule(&rule("pkg.z", None, None)).unwrap()];
    let report = build_package_report(&selected(true), result.clone(), &vec![], &rules);
    assert_eq!(report.changes.len(), 1);
    assert_eq!(report.changes[0].symbol, "pkg.a");
    assert_eq!(report.suppressed_changes.len(), 1);
    assert_eq!(report.summary.suppressed, 1);
    assert_eq!(report.recommendation, Recommendation::Minor);

    let unsuppressed = build_package_report(&selected(true), result, &vec![], &vec![]);
    assert_eq!(unsuppressed.changes[0].symbol, "pkg.a");
    assert_eq!(unsuppressed.changes[1].symbol, "pkg.z");
    assert_eq!(unsuppressed.recommendation, Recommendation::Major);
}

#[test]
fn failed_backends_become_unknown_unless_strict() {
    let error = BackendError::Command("no such file".to_string());
    let evaluated = evaluate_python_package(&selected(true), Err(error.clone()), &[], &vec![], false).unwrap();
    assert_eq!(evaluated.report.changes.len(), 1);
    let change = &evaluated.report.changes[0];
    assert_eq!(change.kind, "backend_error");
    assert_eq!(change.symbol, "<backend>");
    assert_eq!(change.severity, Severity::Unknown);
    assert_eq!(change.message, "failed to run Python backend: no such file");
    assert_eq!(
        evaluated.diagnostics,
        vec![Diagnostic {
            level: "error".to_string(),
            message: "griffe backend failed for pkg: failed to run Python backend: no such file".to_string(),
        }]
    );
    let report = ApiReport::from_packages(vec![evaluated.report], evaluated.diagnostics);
    assert!(!should_fail(&report, FailOn::Breaking));
    assert!(should_fail(&report, FailOn::Unknown));

    let strict = evaluate_python_package(&selected(true), Err(error.clone()), &[], &vec![], true);
    assert_eq!(strict.unwrap_err(), error);
}

#[test]
fn successful_backends_keep_their_diagnostics() {
    let result = PythonBackendResult {
        breaking_changes: vec![],
        old_snapshot: vec![],
        new_snapshot: vec![],
        diagnostics: vec![Diagnostic { level: "warning".to_string(), message: "slow".to_string() }],
    };
    let evaluated = evaluate_python_package(&selected(false), Ok(result), &[], &vec![], true).unwrap();
    assert!(evaluated.report.changes.is_empty());
    assert_eq!(evaluated.diagnostics[0].message, "slow");
}

#[test]
fn fail_on_policy_prefers_the_command_line() {
    let configured = config(Some(ConfigFailOn::Never), None, vec![]);
    assert_eq!(effective_fail_on(Some(FailOn::Unknown), Some(&configured)), FailOn::Unknown);
    assert_eq!(effective_fail_on(None, Some(&configured)), FailOn::Never);
    assert_eq!(effective_fail_on(None, None), FailOn::Breaking);
    assert_eq!(effective_fail_on(None, Some(&config(None, None, vec![]))), FailOn::Breaking);
    assert_eq!(map_config_fail_on(ConfigFailOn::Breaking), FailOn::Breaking);
    assert_eq!(map_config_fail_on(ConfigFailOn::Unknown), FailOn::Unknown);
}

#[test]
fn selection_defaults_to_changed_packages() {
    assert_eq!(selection_mode(None), SelectionMode::Changed);
    assert_eq!(selection_mode(Some(&config(None, Some(SelectionMode::All), vec![]))), SelectionMode::All);
    assert_eq!(selection_mode(Some(&config(None, None, vec![]))), SelectionMode::Changed);
}

#[test]
fn never_policy_never_fails() {
    let report = ApiReport::new(
        vec![api_change("pkg", Severity::Breaking, "object_removed", "pkg.f", "m")],
        vec![],
    );
    assert!(!should_fail(&report, FailOn::Never));
    assert!(should_fail(&report, FailOn::Unknown));
    assert!(should_fail(&report, FailOn::Breaking));
}

#[test]
fn exit_codes_follow_the_policy() {
    let breaking = ApiReport::new(
        vec![api_change("pkg", Severity::Breaking, "object_removed", "pkg.f", "m")],
        vec![],
    );
    assert_eq!(exit_code(&breaking, FailOn::Breaking), 1);
    assert_eq!(exit_code(&breaking, FailOn::Never), 0);
    let unknown = ApiReport::backend_unknown("missing", "griffe");
    assert_eq!(exit_code(&unknown, FailOn::Breaking), 0);
    assert_eq!(exit_code(&unknown, FailOn::Unknown), 1);
}

#[test]
fn every_change_of_a_package_report_names_the_package() {
    let result = PythonBackendResult {
        breaking_changes: vec![BreakingChange {
            kind: "object_removed".to_string(),
            symbol: "pkg.gone".to_string(),
            file: None,
            line: None,
            message: "Public object was removed".to_string(),
            backend: "griffe".to_string(),
        }],
        old_snapshot: vec![symbol("pkg.f", "pkg", SymbolKind::Function, vec![param("a", POSITIONAL, true)])],
        new_snapshot: vec![
            symbol("pkg.f", "pkg", SymbolKind::Function, vec![param("b", POSITIONAL, true)]),
            symbol("pkg.new", "pkg", SymbolKind::Attribute, vec![]),
        ],
        diagnostics: vec![],
    };
    let rules = vec![compile_ignore_rule(&rule("pkg.new", None, None)).unwrap()];
    let report = build_package_report(&selected(true), result, &vec![], &rules);
    assert_eq!(report.changes.len() + report.suppressed_changes.len(), 3);
    for change in report.changes.iter().chain(report.suppressed_changes.iter()) {
        assert_eq!(change.package.as_deref(), Some("pkg"));
    }
}

#[test]
fn breaking_symbols_get_no_duplicate_unknown_change() {
    let old = vec![symbol("tomlkit.parse", "tomlkit", SymbolKind::Function, vec![param("string", POSITIONAL, true)])];
    let new = vec![symbol(
        "tomlkit.parse",
        "tomlkit",
        SymbolKind::Function,
        vec![param("string", POSITIONAL, true), param("mode", POSITIONAL, true)],
    )];
    let changes = classify_snapshot_changes("tomlkit", &old, &new, &vec!["tomlkit.parse".to_string()]);
    assert!(changes.is_empty());
    let unrelated = classify_snapshot_changes("tomlkit", &old, &new, &vec!["tomlkit.dumps".to_string()]);
    assert_eq!(unrelated.len(), 1);
    assert_eq!(unrelated[0].kind, "signature_changed");
}
