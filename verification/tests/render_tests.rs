use apibump::model::{ApiChange, ApiReport, PackageReport, Recommendation, Severity};
use apibump::report::{
    escape_github_command_data, escape_github_command_property, escape_markdown_table, location,
    location_suffix, package_summary_row, recommendation_sentence, render_github, render_human,
    render_markdown,
};

fn change(
    package: &str,
    severity: Severity,
    kind: &str,
    symbol: &str,
    file: Option<&str>,
    line: Option<usize>,
    message: &str,
) -> ApiChange {
    ApiChange {
        package: Some(package.to_string()),
        severity,
        kind: kind.to_string(),
        symbol: symbol.to_string(),
        file: file.map(|f| f.to_string()),
        line,
        message: message.to_string(),
        backend: "griffe".to_string(),
    }
}

fn removal_report() -> ApiReport {
    ApiReport::from_packages(
        vec![PackageReport::new(
            "pkg",
            vec![change(
                "pkg",
                Severity::Breaking,
                "parameter_removed",
                "pkg.api.create_user",
                Some("src/pkg/api.py"),
                Some(42),
                "Parameter was removed",
            )],
            vec![change(
                "pkg",
                Severity::Unknown,
                "signature_changed",
                "pkg.legacy.f",
                None,
                None,
                "Signature changed",
            )],
        )],
        vec![],
    )
}

#[test]
fn renders_human_report_with_packages_and_suppressed_changes() {
    assert_eq!(
        render_human(&removal_report()),
        "ApiBump recommendation: major\n\
Summary: 1 breaking, 0 additive, 0 internal, 0 unknown, 1 suppressed\n\
\n\
Package pkg: major (1 breaking, 0 additive, 0 internal, 0 unknown, 1 suppressed)\n\
\n\
- [breaking] parameter_removed pkg.api.create_user (src/pkg/api.py:42): Parameter was removed\n\
\n\
Suppressed changes:\n\
- [unknown] signature_changed pkg.legacy.f: Signature changed\n"
    );
}

#[test]
fn renders_human_report_without_changes() {
    let report = ApiReport::from_packages(vec![], vec![]);
    assert_eq!(
        render_human(&report),
        "ApiBump recommendation: patch\n\
Summary: 0 breaking, 0 additive, 0 internal, 0 unknown, 0 suppressed\n\
\n\
No public API changes detected.\n"
    );
}

#[test]
fn renders_github_annotations() {
    let report = ApiReport::new(
        vec![
            change(
                "pkg",
                Severity::Breaking,
                "parameter_removed",
                "pkg.api.create_user",
                Some("src/pkg/api.py"),
                Some(42),
                "Parameter was removed",
            ),
            change("pkg", Severity::Unknown, "backend_error", "<backend>", None, None, "50% done\nthen failed"),
            change("pkg", Severity::Additive, "object_added", "pkg.f", Some("a,b.py"), None, "Public function was added"),
        ],
        vec![],
    );
    assert_eq!(
        render_github(&report),
        "::error file=src/pkg/api.py,line=42,title=breaking%3A parameter_removed::pkg.api.create_user: Parameter was removed\n\
::warning title=unknown%3A backend_error::<backend>: 50%25 done%0Athen failed\n\
::notice file=a%2Cb.py,title=additive%3A object_added::pkg.f: Public function was added\n\
::notice title=ApiBump recommendation::major version bump required\n"
    );
}

#[test]
fn renders_github_notice_for_empty_reports() {
    let report = ApiReport::new(vec![], vec![]);
    assert_eq!(
        render_github(&report),
        "::notice title=ApiBump::No public API changes detected\n\
::notice title=ApiBump recommendation::patch version is sufficient\n"
    );
}

#[test]
fn renders_markdown_with_package_column_and_suppressed_section() {
    let report = ApiReport::from_packages(
        vec![
            PackageReport::new(
                "a",
                vec![change("a", Severity::Additive, "object_added", "a.f", None, None, "Public function was added")],
                vec![],
            ),
            PackageReport::new(
                "b",
                vec![],
                vec![change("b", Severity::Breaking, "object_removed", "b.g", None, None, "Public object was removed")],
            ),
        ],
        vec![],
    );
    assert_eq!(
        render_markdown(&report),
        "<!-- apibump-comment -->\n\
## ApiBump API Compatibility Report\n\n\
**Recommendation:** `minor`\n\n\
**Summary:** `0` breaking, `1` additive, `0` internal, `0` unknown, `1` suppressed\n\n\
### Packages\n\n\
| Package | Recommendation | Breaking | Additive | Internal | Unknown | Suppressed |\n\
| --- | --- | --- | --- | --- | --- | --- |\n\
| `a` | `minor` | `0` | `1` | `0` | `0` | `0` |\n\
| `b` | `patch` | `0` | `0` | `0` | `0` | `1` |\n\n\
| Package | Severity | Kind | Symbol | Location | Message |\n\
| --- | --- | --- | --- | --- | --- |\n\
| `a` | `additive` | `object_added` | `a.f` | - | Public function was added |\n\
\n### Suppressed Changes\n\n\
| Severity | Kind | Symbol | Message |\n\
| --- | --- | --- | --- |\n\
| `breaking` | `object_removed` | `b.g` | Public object was removed |\n"
    );
}

#[test]
fn renders_markdown_without_changes() {
    let report = ApiReport::new(vec![], vec![]);
    assert_eq!(
        render_markdown(&report),
        "<!-- apibump-comment -->\n\
## ApiBump API Compatibility Report\n\n\
**Recommendation:** `patch`\n\n\
**Summary:** `0` breaking, `0` additive, `0` internal, `0` unknown, `0` suppressed\n\n\
No public API changes detected.\n"
    );
}

#[test]
fn escapes_markdown_cells_and_workflow_commands() {
    assert_eq!(escape_markdown_table("a|b\nc"), "a\\|b<br>c");
    assert_eq!(escape_github_command_property("50%: a,b\r\n"), "50%25%3A a%2Cb%0D%0A");
    assert_eq!(escape_github_command_data("50%: a,b\r\n"), "50%25: a,b%0D%0A");
    assert_eq!(escape_markdown_table("plain"), "plain");
}

#[test]
fn escaped_texts_stay_on_one_line() {
    let value = "x|y\r\nz:w,v%";
    assert!(!escape_markdown_table(value).contains('\n'));
    let property = escape_github_command_property(value);
    assert!(!property.contains('\n') && !property.contains('\r'));
    assert!(!property.contains(':') && !property.contains(','));
    let data = escape_github_command_data(value);
    assert!(!data.contains('\n') && !data.contains('\r'));
}

#[test]
fn formats_change_locations() {
    let both = change("p", Severity::Breaking, "k", "s", Some("f.py"), Some(7), "m");
    let file = change("p", Severity::Breaking, "k", "s", Some("f.py"), None, "m");
    let line = change("p", Severity::Breaking, "k", "s", None, Some(7), "m");
    let none = change("p", Severity::Breaking, "k", "s", None, None, "m");
    assert_eq!(location(&both), "f.py:7");
    assert_eq!(location(&file), "f.py");
    assert_eq!(location(&line), "line 7");
    assert_eq!(location(&none), "-");
    assert_eq!(location_suffix(&both), " (f.py:7)");
    assert_eq!(location_suffix(&line), " (line 7)");
    assert_eq!(location_suffix(&none), "");
}

#[test]
fn states_recommendation_sentences() {
    assert_eq!(recommendation_sentence(Recommendation::Major), "major version bump required");
    assert_eq!(recommendation_sentence(Recommendation::Minor), "minor version bump recommended");
    assert_eq!(recommendation_sentence(Recommendation::Patch), "patch version is sufficient");
    assert_eq!(recommendation_sentence(Recommendation::Unknown), "unable to determine version bump");
}

#[test]
fn renders_package_summary_rows() {
    let package = PackageReport::new(
        "my|pkg",
        vec![change("my|pkg", Severity::Internal, "internal_only", "my|pkg", None, None, "m")],
        vec![],
    );
    assert_eq!(
        package_summary_row(&package),
        "| `my\\|pkg` | `patch` | `0` | `0` | `1` | `0` | `0` |\n"
    );
}

#[test]
fn renders_github_annotation_without_file_with_a_space() {
    let report = ApiReport::backend_unknown("boom", "griffe");
    assert_eq!(
        render_github(&report),
        "::warning title=unknown%3A backend_error::<backend>: boom\n\
::notice title=ApiBump recommendation::unable to determine version bump\n"
    );
}
