use apibump::model::{ApiChange, ApiReport, PackageReport, Severity};
use apibump::report::render_markdown;

#[test]
fn renders_stable_markdown_summary() {
    let report = ApiReport::from_packages(
        vec![PackageReport::new(
            "pkg",
            vec![ApiChange {
                package: Some("pkg".to_string()),
                severity: Severity::Breaking,
                kind: "parameter_removed".to_string(),
                symbol: "pkg.api.create_user".to_string(),
                file: Some("src/pkg/api.py".to_string()),
                line: Some(42),
                message: "Parameter was removed".to_string(),
                backend: "griffe".to_string(),
            }],
            vec![],
        )],
        vec![],
    );

    assert_eq!(
        render_markdown(&report),
        "<!-- apibump-comment -->\n\
## ApiBump API Compatibility Report\n\n\
**Recommendation:** `major`\n\n\
**Summary:** `1` breaking, `0` additive, `0` internal, `0` unknown, `0` suppressed\n\n\
### Packages\n\n\
| Package | Recommendation | Breaking | Additive | Internal | Unknown | Suppressed |\n\
| --- | --- | --- | --- | --- | --- | --- |\n\
| `pkg` | `major` | `1` | `0` | `0` | `0` | `0` |\n\n\
| Severity | Kind | Symbol | Location | Message |\n\
| --- | --- | --- | --- | --- |\n\
| `breaking` | `parameter_removed` | `pkg.api.create_user` | src/pkg/api.py:42 | Parameter was removed |\n"
    );
}
