use apibump::model::{recommend, ApiChange, ApiReport, PackageReport, Recommendation, Severity, Summary, SCHEMA_VERSION};

fn change(severity: Severity) -> ApiChange {
    ApiChange {
        package: None,
        severity,
        kind: "object_removed".to_string(),
        symbol: "pkg.api.symbol".to_string(),
        file: Some("src/pkg/api.py".to_string()),
        line: Some(12),
        message: "Public object was removed".to_string(),
        backend: "griffe".to_string(),
    }
}

#[test]
fn recommends_major_when_any_breaking_change_exists() {
    let report = ApiReport::new(
        vec![change(Severity::Additive), change(Severity::Breaking)],
        vec![],
    );

    assert_eq!(report.recommendation, Recommendation::Major);
    assert_eq!(report.summary.breaking, 1);
    assert_eq!(report.summary.additive, 1);
}

#[test]
fn recommends_minor_for_additive_only_changes() {
    let report = ApiReport::new(vec![change(Severity::Additive)], vec![]);

    assert_eq!(report.recommendation, Recommendation::Minor);
}

#[test]
fn recommends_patch_for_empty_reports() {
    let report = ApiReport::new(vec![], vec![]);

    assert_eq!(report.recommendation, Recommendation::Patch);
}

#[test]
fn recommends_unknown_for_backend_uncertainty() {
    let report = ApiReport::backend_unknown("griffe is missing", "griffe");

    assert_eq!(report.recommendation, Recommendation::Unknown);
    assert_eq!(report.summary.unknown, 1);
}

fn package_change(package: &str, severity: Severity) -> ApiChange {
    let mut c = change(severity);
    c.package = Some(package.to_string());
    c
}

#[test]
fn summary_counts_every_change_once() {
    let changes = vec![
        change(Severity::Breaking),
        change(Severity::Additive),
        change(Severity::Additive),
        change(Severity::Internal),
        change(Severity::Unknown),
    ];
    let summary = Summary::from_changes(&changes);
    assert_eq!(summary.breaking, 1);
    assert_eq!(summary.additive, 2);
    assert_eq!(summary.internal, 1);
    assert_eq!(summary.unknown, 1);
    assert_eq!(summary.suppressed, 0);
    assert_eq!(
        summary.breaking + summary.additive + summary.internal + summary.unknown,
        changes.len()
    );
}

#[test]
fn recommends_by_precedence() {
    let base = Summary { breaking: 0, additive: 0, internal: 3, unknown: 0, suppressed: 9 };
    assert_eq!(recommend(&base), Recommendation::Patch);
    assert_eq!(recommend(&Summary { additive: 1, ..base.clone() }), Recommendation::Minor);
    assert_eq!(recommend(&Summary { additive: 1, unknown: 1, ..base.clone() }), Recommendation::Unknown);
    assert_eq!(
        recommend(&Summary { additive: 1, unknown: 1, breaking: 1, ..base.clone() }),
        Recommendation::Major
    );
}

#[test]
fn suppressed_changes_are_counted_but_do_not_recommend() {
    let report = PackageReport::new(
        "pkg",
        vec![package_change("pkg", Severity::Additive)],
        vec![package_change("pkg", Severity::Breaking)],
    );
    assert_eq!(report.summary.suppressed, 1);
    assert_eq!(report.summary.breaking, 0);
    assert_eq!(report.recommendation, Recommendation::Minor);
}

#[test]
fn report_over_packages_sums_their_summaries() {
    let first = PackageReport::new(
        "a",
        vec![package_change("a", Severity::Additive)],
        vec![package_change("a", Severity::Breaking)],
    );
    let second = PackageReport::new(
        "b",
        vec![package_change("b", Severity::Unknown), package_change("b", Severity::Internal)],
        vec![],
    );
    let report = ApiReport::from_packages(vec![first, second], vec![]);
    assert_eq!(report.schema_version, SCHEMA_VERSION);
    assert_eq!(report.summary.additive, 1);
    assert_eq!(report.summary.unknown, 1);
    assert_eq!(report.summary.internal, 1);
    assert_eq!(report.summary.suppressed, 1);
    assert_eq!(report.changes.len(), 3);
    assert_eq!(report.changes[0].package.as_deref(), Some("a"));
    assert_eq!(report.changes[2].severity, Severity::Internal);
    assert_eq!(report.suppressed_changes.len(), 1);
    assert_eq!(report.recommendation, Recommendation::Unknown);
    assert_eq!(report.packages.len(), 2);
}

#[test]
fn report_recommendation_is_the_most_severe_of_its_packages() {
    let major = PackageReport::new("a", vec![package_change("a", Severity::Breaking)], vec![]);
    let patch = PackageReport::new("b", vec![], vec![]);
    let report = ApiReport::from_packages(vec![patch.clone(), major], vec![]);
    assert_eq!(report.recommendation, Recommendation::Major);
    let report = ApiReport::from_packages(vec![patch.clone(), patch], vec![]);
    assert_eq!(report.recommendation, Recommendation::Patch);
}

#[test]
fn backend_unknown_reports_one_backend_error() {
    let report = ApiReport::backend_unknown("griffe is missing", "griffe");
    assert_eq!(report.changes.len(), 1);
    assert_eq!(report.changes[0].kind, "backend_error");
    assert_eq!(report.changes[0].symbol, "<backend>");
    assert_eq!(report.changes[0].message, "griffe is missing");
    assert_eq!(report.changes[0].severity, Severity::Unknown);
    assert_eq!(report.diagnostics.len(), 1);
    assert_eq!(report.diagnostics[0].level, "error");
    assert_eq!(report.diagnostics[0].message, "griffe backend failed");
}

#[test]
fn labels_severities_and_recommendations() {
    assert_eq!(Severity::Breaking.label(), "breaking");
    assert_eq!(Severity::Additive.label(), "additive");
    assert_eq!(Severity::Internal.label(), "internal");
    assert_eq!(Severity::Unknown.label(), "unknown");
    assert_eq!(Recommendation::Major.label(), "major");
    assert_eq!(Recommendation::Minor.label(), "minor");
    assert_eq!(Recommendation::Patch.label(), "patch");
    assert_eq!(Recommendation::Unknown.label(), "unknown");
}

#[test]
fn summary_ignores_the_order_of_changes() {
    let forward = vec![change(Severity::Breaking), change(Severity::Additive), change(Severity::Unknown)];
    let backward = vec![change(Severity::Unknown), change(Severity::Additive), change(Severity::Breaking)];
    assert_eq!(Summary::from_changes(&forward), Summary::from_changes(&backward));
}

#[test]
fn summary_adds_over_concatenation() {
    let a = vec![change(Severity::Breaking), change(Severity::Additive)];
    let b = vec![change(Severity::Additive), change(Severity::Internal)];
    let joined: Vec<ApiChange> = a.iter().chain(b.iter()).cloned().collect();
    let (x, y, z) = (Summary::from_changes(&a), Summary::from_changes(&b), Summary::from_changes(&joined));
    assert_eq!(z.breaking, x.breaking + y.breaking);
    assert_eq!(z.additive, x.additive + y.additive);
    assert_eq!(z.internal, x.internal + y.internal);
    assert_eq!(z.unknown, x.unknown + y.unknown);
    assert_eq!(Summary::from_changes(&[]), Summary::default());
}
