use apibump::config::{
    build_config, config_path, missing_config, normalize_rel_path, ConfigDefaults, ConfigError,
    ConfigFailOn, ConfigLanguage, ConfigPackage, IgnoreRule, RawConfig, RawPackage, SelectionMode,
};

#[test]
fn explicit_missing_config_errors() {
    let repo = tempfile::tempdir().unwrap();
    let path = config_path(repo.path().to_str().unwrap(), Some("missing.toml"));
    let error = missing_config(&path, true).unwrap_err();
    assert!(error.message().contains("config file not found"));
}

#[test]
fn rejects_paths_outside_repo() {
    let repo = tempfile::tempdir().unwrap();
    let outside = tempfile::tempdir().unwrap();
    let repo_path = repo.path().to_str().unwrap();
    let error = normalize_rel_path(repo_path, repo_path, outside.path().to_str().unwrap()).unwrap_err();
    assert!(error.message().contains("outside repo"));
}

fn raw_package(package: &str, search: &[&str], roots: Option<&[&str]>) -> RawPackage {
    RawPackage {
        package: package.to_string(),
        search: search.iter().map(|s| s.to_string()).collect(),
        roots: roots.map(|r| r.iter().map(|s| s.to_string()).collect()),
    }
}

fn raw_config(version: u32, packages: Vec<RawPackage>) -> RawConfig {
    RawConfig {
        version,
        defaults: ConfigDefaults {
            language: Some(ConfigLanguage::Python),
            selection: Some(SelectionMode::Changed),
            fail_on: Some(ConfigFailOn::Breaking),
        },
        packages,
        ignore: vec![IgnoreRule {
            symbol: "demo_pkg.legacy.*".to_string(),
            kind: Some("parameter_removed".to_string()),
            package: None,
            reason: None,
        }],
    }
}

#[test]
fn builds_config_and_defaults_roots_from_search() {
    let path = config_path("/repo", None);
    assert_eq!(path, "/repo/apibump.toml");
    let config = build_config("/repo", &path, raw_config(1, vec![raw_package("demo_pkg", &["src"], None)])).unwrap();
    assert_eq!(config.version, 1);
    assert_eq!(config.path, "/repo/apibump.toml");
    assert_eq!(config.defaults.language, Some(ConfigLanguage::Python));
    assert_eq!(config.defaults.selection, Some(SelectionMode::Changed));
    assert_eq!(config.defaults.fail_on, Some(ConfigFailOn::Breaking));
    assert_eq!(config.packages[0].package, "demo_pkg");
    assert_eq!(config.packages[0].search, vec!["src".to_string()]);
    assert_eq!(config.packages[0].roots, vec!["src".to_string()]);
    assert_eq!(config.ignore[0].symbol, "demo_pkg.legacy.*");
    assert_eq!(config.ignore[0].kind.as_deref(), Some("parameter_removed"));
}

#[test]
fn builds_config_paths_relative_to_the_config_directory() {
    let config = build_config(
        "/repo",
        "/repo/apibump.toml",
        raw_config(1, vec![raw_package("pkg", &["./src", "/repo/lib"], Some(&["src/pkg"]))]),
    )
    .unwrap();
    assert_eq!(config.packages[0].search, vec!["src".to_string(), "lib".to_string()]);
    assert_eq!(config.packages[0].roots, vec!["src/pkg".to_string()]);
}

#[test]
fn refuses_unsupported_config_versions() {
    let error = build_config("/repo", "/repo/apibump.toml", raw_config(2, vec![])).unwrap_err();
    assert_eq!(
        error,
        ConfigError::UnsupportedVersion { version: 2, path: "/repo/apibump.toml".to_string() }
    );
    assert_eq!(error.message(), "unsupported apibump.toml version 2 in /repo/apibump.toml");
}

#[test]
fn refuses_packages_without_search_paths() {
    let error = build_config("/repo", "/repo/apibump.toml", raw_config(1, vec![raw_package("pkg", &[], None)]))
        .unwrap_err();
    assert_eq!(
        error.message(),
        "package pkg in /repo/apibump.toml must declare at least one search path"
    );
}

#[test]
fn refuses_package_paths_outside_the_repo() {
    let error = build_config(
        "/repo",
        "/repo/apibump.toml",
        raw_config(1, vec![raw_package("pkg", &["/elsewhere/src"], None)]),
    )
    .unwrap_err();
    assert_eq!(
        error,
        ConfigError::OutsideRepo { path: "/elsewhere/src".to_string(), repo: "/repo".to_string() }
    );
    assert_eq!(error.message(), "path /elsewhere/src is outside repo /repo");
}

#[test]
fn missing_default_config_is_no_config() {
    assert_eq!(missing_config("/repo/apibump.toml", false).unwrap(), None);
    assert_eq!(config_path("/repo", Some("conf/apibump.toml")), "/repo/conf/apibump.toml");
    assert_eq!(
        missing_config("/repo/x.toml", true).unwrap_err(),
        ConfigError::NotFound { path: "/repo/x.toml".to_string() }
    );
}

#[test]
fn normalizes_paths_against_the_repo() {
    assert_eq!(normalize_rel_path("/repo", "/repo", "src/./pkg/").unwrap(), "src/pkg");
    assert_eq!(normalize_rel_path("/repo/sub", "/repo", "src").unwrap(), "sub/src");
    assert_eq!(normalize_rel_path("/repo", "/repo", "/repo").unwrap(), "");
}

#[test]
fn copies_default_roots_from_search() {
    let search = vec!["src".to_string(), "lib".to_string()];
    assert_eq!(ConfigPackage::default_roots(&search), search);
}

#[test]
fn default_roots_of_a_nested_config_are_its_search_paths() {
    let config = build_config(
        "/repo",
        "/repo/sub/apibump.toml",
        raw_config(1, vec![raw_package("pkg", &["src"], None)]),
    )
    .unwrap();
    assert_eq!(config.packages[0].search, vec!["sub/src".to_string()]);
    assert_eq!(config.packages[0].roots, vec!["sub/src".to_string()]);
}
