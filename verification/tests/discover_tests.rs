use apibump::config::SelectionMode;
use apibump::discover::{
    candidate_layouts, finalize_discovered, infer_single_layout_candidate, is_likely_package_name,
    layout_search_dirs, manifest_packages, needs_layout_listing, normalize_project_name,
    resolve_import_names, NameLayouts, only_candidate, package_has_changed,
    parse_changed_files, path_is_within, pyproject_import_names, repo_relative, resolve_candidate,
    sanitize_import_name, select_changed_packages, should_walk, DirEntryInfo, DirListing,
    DiscoverError, DiscoveredPackage, PyProject, PyProjectFlit, PyProjectFlitModule,
    PyProjectPoetry, PyProjectProject, PyProjectTool,
};

#[test]
fn package_change_detection_uses_roots() {
    let package = DiscoveredPackage {
        package: "demo_pkg".to_string(),
        search: vec!["src".to_string()],
        roots: vec!["src/demo_pkg".to_string()],
        manifest_path: "pyproject.toml".to_string(),
    };

    assert!(package_has_changed(
        &package.roots,
        &["src/demo_pkg/api.py".to_string()]
    ));
    assert!(!package_has_changed(
        &package.roots,
        &["other/file.py".to_string()]
    ));
}

fn discovered(package: &str, roots: &[&str], manifest: &str) -> DiscoveredPackage {
    DiscoveredPackage {
        package: package.to_string(),
        search: vec!["src".to_string()],
        roots: roots.iter().map(|r| r.to_string()).collect(),
        manifest_path: manifest.to_string(),
    }
}

fn project(name: Option<&str>, import_names: Option<Vec<&str>>) -> PyProject {
    PyProject {
        project: Some(PyProjectProject {
            name: name.map(|n| n.to_string()),
            import_names: import_names.map(|v| v.into_iter().map(|n| n.to_string()).collect()),
        }),
        tool: None,
    }
}

fn entry(dir: &str, name: &str, is_dir: bool, has_init: bool) -> DirEntryInfo {
    DirEntryInfo {
        name: name.to_string(),
        path: format!("{dir}/{name}"),
        is_dir,
        has_init,
    }
}

#[test]
fn paths_lie_within_their_roots() {
    assert!(path_is_within("src/pkg/api.py", "src/pkg"));
    assert!(path_is_within("src/pkg", "src/pkg/"));
    assert!(!path_is_within("src/pkg2/api.py", "src/pkg"));
    assert!(path_is_within("anything/at/all.py", "."));
    assert!(path_is_within("anything/at/all.py", ""));
    assert!(path_is_within("a.py", "./"));
}

#[test]
fn current_dir_roots_see_every_change() {
    let roots = vec![".".to_string()];
    assert!(package_has_changed(&roots, &["deep/inside/file.py".to_string()]));
    assert!(!package_has_changed(&roots, &[]));
}

#[test]
fn selects_changed_packages_unless_all_are_wanted() {
    let packages = vec![
        discovered("a", &["a"], "a/pyproject.toml"),
        discovered("b", &["b"], "b/pyproject.toml"),
    ];
    let changed = vec!["b/mod.py".to_string()];
    let only_b = select_changed_packages(&packages, &changed, SelectionMode::Changed, false);
    assert_eq!(only_b, vec![packages[1].clone()]);
    assert_eq!(select_changed_packages(&packages, &changed, SelectionMode::All, false), packages);
    assert_eq!(select_changed_packages(&packages, &changed, SelectionMode::Changed, true), packages);
    assert!(select_changed_packages(&packages, &[], SelectionMode::Changed, false).is_empty());
}

#[test]
fn walks_past_tool_directories() {
    assert!(!should_walk(true, ".git"));
    assert!(!should_walk(true, "target"));
    assert!(!should_walk(true, ".venv"));
    assert!(!should_walk(true, "__pycache__"));
    assert!(should_walk(true, "src"));
    assert!(should_walk(false, ".git"));
}

#[test]
fn normalizes_project_and_import_names() {
    assert_eq!(normalize_project_name("PyJWT"), "pyjwt");
    assert_eq!(normalize_project_name(" demo-pkg.core name "), "demo_pkg_core_name");
    assert_eq!(sanitize_import_name(" flat_pkg ; private"), "flat_pkg");
    assert_eq!(sanitize_import_name("plain"), "plain");
}

#[test]
fn collects_import_names_from_pyproject() {
    assert_eq!(
        pyproject_import_names(&project(Some("flat-pkg"), Some(vec!["flat_pkg", " ", "zeta; x"]))),
        vec!["flat_pkg".to_string(), "zeta".to_string()]
    );
    assert_eq!(pyproject_import_names(&project(Some("demo-pkg"), None)), vec!["demo_pkg".to_string()]);
    let poetry = PyProject {
        project: None,
        tool: Some(PyProjectTool {
            poetry: Some(PyProjectPoetry { name: Some("tomlkit".to_string()) }),
            flit: Some(PyProjectFlit {
                module: Some(PyProjectFlitModule { name: Some("alpha".to_string()) }),
            }),
        }),
    };
    assert_eq!(pyproject_import_names(&poetry), vec!["alpha".to_string(), "tomlkit".to_string()]);
    assert!(pyproject_import_names(&PyProject { project: None, tool: None }).is_empty());
}

#[test]
fn recognizes_likely_package_names() {
    assert!(is_likely_package_name("jwt"));
    assert!(is_likely_package_name("demo_pkg2"));
    assert!(!is_likely_package_name("_private"));
    assert!(!is_likely_package_name(".hidden"));
    assert!(!is_likely_package_name("tests"));
    assert!(!is_likely_package_name("docs"));
    assert!(!is_likely_package_name("2fast"));
    assert!(!is_likely_package_name("with-dash"));
    assert!(!is_likely_package_name(""));
}

#[test]
fn resolves_src_layout_candidates() {
    let mut layouts = candidate_layouts("/r/pkg", "demo_pkg");
    assert_eq!(layouts[0].search_dir, "/r/pkg/src");
    assert_eq!(layouts[0].package_dir, "/r/pkg/src/demo_pkg");
    assert_eq!(layouts[0].init_file, "/r/pkg/src/demo_pkg/__init__.py");
    assert_eq!(layouts[1].search_dir, "/r/pkg");
    assert_eq!(layouts[1].init_file, "/r/pkg/demo_pkg/__init__.py");
    assert_eq!(resolve_candidate("/r", "/r/pkg/pyproject.toml", "demo_pkg", &layouts).unwrap(), None);
    layouts[0].init_exists = true;
    layouts[1].init_exists = true;
    let package = resolve_candidate("/r", "/r/pkg/pyproject.toml", "demo_pkg", &layouts)
        .unwrap()
        .unwrap();
    assert_eq!(package.package, "demo_pkg");
    assert_eq!(package.search, vec!["pkg/src".to_string()]);
    assert_eq!(package.roots, vec!["pkg/src/demo_pkg".to_string()]);
    assert_eq!(package.manifest_path, "pkg/pyproject.toml");
}

#[test]
fn resolves_flat_layout_candidates() {
    let mut layouts = candidate_layouts("/r", "flat_pkg");
    layouts[1].init_exists = true;
    let package = resolve_candidate("/r", "/r/pyproject.toml", "flat_pkg", &layouts).unwrap().unwrap();
    assert_eq!(package.search, vec!["".to_string()]);
    assert_eq!(package.roots, vec!["flat_pkg".to_string()]);
    assert_eq!(package.manifest_path, "pyproject.toml");
}

#[test]
fn refuses_candidates_outside_the_repo() {
    let mut layouts = candidate_layouts("/elsewhere", "pkg");
    layouts[0].init_exists = true;
    let error = resolve_candidate("/r", "/elsewhere/pyproject.toml", "pkg", &layouts).unwrap_err();
    assert_eq!(
        error,
        DiscoverError::OutsideRepo { path: "/elsewhere/src".to_string(), repo: "/r".to_string() }
    );
    assert_eq!(error.message(), "/elsewhere/src is outside /r");
    assert_eq!(repo_relative("/r", "/r/a/./b").unwrap(), "a/b");
}

#[test]
fn falls_back_to_the_only_package_directory_listed() {
    assert_eq!(layout_search_dirs("/r"), vec!["/r/src".to_string(), "/r".to_string()]);
    let listings = vec![DirListing {
        search_dir: "/r".to_string(),
        entries: vec![
            entry("/r", "jwt", true, true),
            entry("/r", "tests", true, true),
            entry("/r", "docs", true, false),
            entry("/r", "setup.py", false, false),
        ],
    }];
    let package = infer_single_layout_candidate("/r", "/r/pyproject.toml", &listings).unwrap().unwrap();
    assert_eq!(package.package, "jwt");
    assert_eq!(package.search, vec!["".to_string()]);
    assert_eq!(package.roots, vec!["jwt".to_string()]);
    assert_eq!(package.manifest_path, "pyproject.toml");
}

#[test]
fn several_package_directories_give_no_fallback() {
    let listings = vec![
        DirListing { search_dir: "/r/src".to_string(), entries: vec![entry("/r/src", "alpha", true, true)] },
        DirListing { search_dir: "/r".to_string(), entries: vec![entry("/r", "beta", true, true)] },
    ];
    assert_eq!(infer_single_layout_candidate("/r", "/r/pyproject.toml", &listings).unwrap(), None);
    assert_eq!(infer_single_layout_candidate("/r", "/r/pyproject.toml", &vec![]).unwrap(), None);
}

#[test]
fn only_candidate_needs_one_distinct_candidate() {
    let t = ("a".to_string(), "".to_string(), "a".to_string());
    assert_eq!(only_candidate(vec![t.clone(), t.clone()]), Some(t.clone()));
    assert_eq!(only_candidate(vec![]), None);
    assert_eq!(only_candidate(vec![t.clone(), ("b".to_string(), "".to_string(), "b".to_string())]), None);
}

#[test]
fn finalizes_discovered_packages_sorted_without_repeats() {
    let packages = vec![
        discovered("zeta", &["z"], "z/pyproject.toml"),
        discovered("alpha", &["a"], "a/pyproject.toml"),
        discovered("alpha", &["a/"], "b/pyproject.toml"),
        discovered("alpha", &["./a"], "d/pyproject.toml"),
        discovered("alpha", &["other"], "c/pyproject.toml"),
    ];
    let finalized = finalize_discovered(packages);
    let names: Vec<(&str, &str)> = finalized
        .iter()
        .map(|p| (p.package.as_str(), p.manifest_path.as_str()))
        .collect();
    assert_eq!(
        names,
        vec![
            ("alpha", "a/pyproject.toml"),
            ("alpha", "d/pyproject.toml"),
            ("alpha", "c/pyproject.toml"),
            ("zeta", "z/pyproject.toml"),
        ]
    );
}

#[test]
fn parses_changed_files_from_git_output() {
    assert_eq!(
        parse_changed_files("src/a.py\n\n  \nsrc/b.py\r\nlast.py"),
        vec!["src/a.py".to_string(), "src/b.py".to_string(), "last.py".to_string()]
    );
    assert!(parse_changed_files("").is_empty());
    assert_eq!(parse_changed_files("one.py\n"), vec!["one.py".to_string()]);
}

#[test]
fn resolves_import_names_in_order_and_falls_back_only_without_them() {
    let mut first = candidate_layouts("/r", "alpha");
    first[1].init_exists = true;
    let missing = candidate_layouts("/r", "beta");
    let names = vec![
        NameLayouts { import_name: "alpha".to_string(), layouts: first },
        NameLayouts { import_name: "beta".to_string(), layouts: missing },
    ];
    let resolved = resolve_import_names("/r", "/r/pyproject.toml", &names).unwrap();
    assert_eq!(resolved.len(), 1);
    assert_eq!(resolved[0].package, "alpha");
    assert!(!needs_layout_listing(&resolved));
    let listings = vec![DirListing { search_dir: "/r".to_string(), entries: vec![entry("/r", "jwt", true, true)] }];
    let kept = manifest_packages("/r", "/r/pyproject.toml", resolved.clone(), &listings).unwrap();
    assert_eq!(kept, resolved);

    assert!(needs_layout_listing(&vec![]));
    let fallback = manifest_packages("/r", "/r/pyproject.toml", vec![], &listings).unwrap();
    assert_eq!(fallback.len(), 1);
    assert_eq!(fallback[0].package, "jwt");
    assert!(manifest_packages("/r", "/r/pyproject.toml", vec![], &vec![]).unwrap().is_empty());
}
