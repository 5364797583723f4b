use apibump::cli::{
    resolve_packages, select_packages, to_discovered_package, CheckArgs, FailOn, Language,
    ResolveError, SelectedPackage,
};
use apibump::config::{ApibumpConfig, ConfigDefaults, ConfigPackage, SelectionMode};
use apibump::discover::{
    candidate_layouts, pyproject_import_names, resolve_candidate, DiscoveredPackage, PyProject,
    PyProjectProject,
};
use apibump::report::OutputFormat;

fn args(package: Option<&str>, search: &[&str], all_packages: bool) -> CheckArgs {
    CheckArgs {
        language: Language::Python,
        package: package.map(|p| p.to_string()),
        search_paths: search.iter().map(|s| s.to_string()).collect(),
        config: None,
        all_packages,
        base: "origin/main".to_string(),
        head: "HEAD".to_string(),
        repo: ".".to_string(),
        format: OutputFormat::Human,
        fail_on: Some(FailOn::Breaking),
        strict: false,
        json_output: None,
        markdown_output: None,
        python: None,
    }
}

fn discovered(package: &str, root: &str) -> DiscoveredPackage {
    DiscoveredPackage {
        package: package.to_string(),
        search: vec!["src".to_string()],
        roots: vec![root.to_string()],
        manifest_path: format!("{package}/pyproject.toml"),
    }
}

fn config_with(packages: Vec<ConfigPackage>) -> ApibumpConfig {
    ApibumpConfig {
        path: "/repo/apibump.toml".to_string(),
        version: 1,
        defaults: ConfigDefaults::default(),
        packages,
        ignore: vec![],
    }
}

fn files(paths: &[&str]) -> Vec<String> {
    paths.iter().map(|p| p.to_string()).collect()
}

#[test]
fn explicit_package_searches_the_current_directory_by_default() {
    let changed = files(&["src/demo_pkg/api.py"]);
    let selected = resolve_packages(&args(Some("demo_pkg"), &[], false), None, &changed, SelectionMode::Changed, None)
        .unwrap();
    assert_eq!(
        selected,
        vec![SelectedPackage {
            package: "demo_pkg".to_string(),
            search: vec![".".to_string()],
            roots: vec![".".to_string()],
            changed: true,
        }]
    );
}

#[test]
fn explicit_package_uses_its_search_paths_as_roots() {
    let changed = files(&["docs/index.md"]);
    let selected = resolve_packages(&args(Some("demo_pkg"), &["src"], false), None, &changed, SelectionMode::Changed, None)
        .unwrap();
    assert_eq!(selected[0].search, vec!["src".to_string()]);
    assert_eq!(selected[0].roots, vec!["src".to_string()]);
    assert!(!selected[0].changed);
}

#[test]
fn configured_packages_are_selected_by_change() {
    let config = config_with(vec![
        ConfigPackage { package: "a".to_string(), search: vec!["a/src".to_string()], roots: vec!["a".to_string()] },
        ConfigPackage { package: "b".to_string(), search: vec!["b/src".to_string()], roots: vec!["b".to_string()] },
    ]);
    let changed = files(&["b/src/b/x.py"]);
    let selected = resolve_packages(&args(None, &[], false), Some(&config), &changed, SelectionMode::Changed, None)
        .unwrap();
    assert_eq!(selected.len(), 1);
    assert_eq!(selected[0].package, "b");
    assert!(selected[0].changed);
    let all = resolve_packages(&args(None, &[], false), Some(&config), &changed, SelectionMode::All, None).unwrap();
    assert_eq!(all.len(), 2);
    assert!(!all[0].changed);
    let flag = resolve_packages(&args(None, &[], true), Some(&config), &changed, SelectionMode::Changed, None).unwrap();
    assert_eq!(flag.len(), 2);
}

#[test]
fn discovery_is_needed_without_package_or_configuration() {
    let result = resolve_packages(&args(None, &[], false), None, &[], SelectionMode::Changed, None);
    assert_eq!(result, Err(ResolveError::DiscoveryRequired));
    let empty = config_with(vec![]);
    let result = resolve_packages(&args(None, &[], false), Some(&empty), &[], SelectionMode::Changed, None);
    assert_eq!(result, Err(ResolveError::DiscoveryRequired));
}

#[test]
fn no_discovered_package_is_refused() {
    let error = resolve_packages(&args(None, &[], false), None, &[], SelectionMode::Changed, Some(vec![]))
        .unwrap_err();
    assert_eq!(error, ResolveError::NoPackageDetected);
    assert_eq!(error.message(), "could not detect a Python package; pass --package or add apibump.toml");
}

#[test]
fn a_single_discovered_package_is_used() {
    let changed = files(&["src/demo_pkg/api.py"]);
    let selected = resolve_packages(
        &args(None, &[], false),
        None,
        &changed,
        SelectionMode::Changed,
        Some(vec![discovered("demo_pkg", "src/demo_pkg")]),
    )
    .unwrap();
    assert_eq!(selected.len(), 1);
    assert_eq!(selected[0].package, "demo_pkg");
    assert!(selected[0].changed);
}

#[test]
fn the_only_changed_candidate_of_several_is_used() {
    let changed = files(&["payments/api.py"]);
    let selected = resolve_packages(
        &args(None, &[], false),
        None,
        &changed,
        SelectionMode::Changed,
        Some(vec![discovered("billing", "billing"), discovered("payments", "payments")]),
    )
    .unwrap();
    assert_eq!(selected.len(), 1);
    assert_eq!(selected[0].package, "payments");
}

#[test]
fn ambiguous_candidates_are_refused() {
    let error = resolve_packages(
        &args(None, &[], false),
        None,
        &files(&["README.md"]),
        SelectionMode::Changed,
        Some(vec![discovered("billing", "billing"), discovered("payments", "payments")]),
    )
    .unwrap_err();
    assert_eq!(
        error.message(),
        "multiple Python package candidates detected: billing (billing/pyproject.toml), payments (payments/pyproject.toml). Add apibump.toml or pass --package."
    );
    assert_eq!(ResolveError::DiscoveryRequired.message(), "package discovery is required");
}

#[test]
fn selected_packages_record_whether_they_changed() {
    let packages = vec![discovered("a", "a"), discovered("b", "b")];
    let selected = select_packages(packages, &files(&["a/x.py"]), SelectionMode::All, false);
    assert_eq!(selected.len(), 2);
    assert!(selected[0].changed);
    assert!(!selected[1].changed);
}

#[test]
fn configured_packages_name_the_configuration_as_manifest() {
    let package = ConfigPackage {
        package: "pkg".to_string(),
        search: vec!["src".to_string()],
        roots: vec!["src/pkg".to_string()],
    };
    let discovered = to_discovered_package("/repo/apibump.toml", &package);
    assert_eq!(discovered.package, "pkg");
    assert_eq!(discovered.search, vec!["src".to_string()]);
    assert_eq!(discovered.roots, vec!["src/pkg".to_string()]);
    assert_eq!(discovered.manifest_path, "/repo/apibump.toml");
}

#[test]
fn resolve_packages_autodetects_single_candidate() {
    let pyproject = PyProject {
        project: Some(PyProjectProject { name: Some("demo-pkg".to_string()), import_names: None }),
        tool: None,
    };
    let mut discovered = Vec::new();
    for import_name in pyproject_import_names(&pyproject) {
        let mut layouts = candidate_layouts("/repo", &import_name);
        for layout in &mut layouts {
            layout.init_exists = layout.init_file == "/repo/src/demo_pkg/__init__.py";
        }
        if let Some(package) = resolve_candidate("/repo", "/repo/pyproject.toml", &import_name, &layouts).unwrap() {
            discovered.push(package);
        }
    }

    let packages = resolve_packages(
        &CheckArgs { base: "HEAD~1".to_string(), fail_on: None, ..args(None, &[], false) },
        None,
        &files(&["src/demo_pkg/api.py"]),
        SelectionMode::Changed,
        Some(discovered),
    )
    .unwrap();
    assert_eq!(packages.len(), 1);
    assert_eq!(packages[0].package, "demo_pkg");
}
