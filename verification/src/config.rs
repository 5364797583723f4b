use vstd::prelude::*;

use crate::paths::{
    join_path, join_path_spec, parent_path, parent_path_spec, strip_prefix,
    strip_prefix_spec,
};
use crate::text::{concat2, decimal, opt_str, opt_string_copy, push_decimal, string_views};

verus! {

/// Which configured packages a check looks at.
#[derive(Debug, Clone, Copy, PartialEq, Eq, Structural)]
pub enum SelectionMode {
    Changed,
    All,
}

/// The languages that a configuration can name.
#[derive(Debug, Clone, Copy, PartialEq, Eq, Structural)]
pub enum ConfigLanguage {
    Python,
}

/// When a check fails, as a configuration states it.
#[derive(Debug, Clone, Copy, PartialEq, Eq, Structural)]
pub enum ConfigFailOn {
    Breaking,
    Unknown,
    Never,
}

/// A loaded `apibump.toml`, with its paths made relative to the repository.
#[derive(Debug, Clone, PartialEq, Eq)]
pub struct ApibumpConfig {
    pub path: String,
    pub version: u32,
    pub defaults: ConfigDefaults,
    pub packages: Vec<ConfigPackage>,
    pub ignore: Vec<IgnoreRule>,
}

/// The `[defaults]` table.
#[derive(Debug, Clone, Copy, PartialEq, Eq, Default)]
pub struct ConfigDefaults {
    pub language: Option<ConfigLanguage>,
    pub selection: Option<SelectionMode>,
    pub fail_on: Option<ConfigFailOn>,
}

/// One `[[packages]]` entry.
#[derive(Debug, Clone, PartialEq, Eq)]
pub struct ConfigPackage {
    pub package: String,
    pub search: Vec<String>,
    pub roots: Vec<String>,
}

/// One `[[ignore]]` entry.
#[derive(Debug, Clone, PartialEq, Eq)]
pub struct IgnoreRule {
    pub symbol: String,
    pub kind: Option<String>,
    pub package: Option<String>,
    pub reason: Option<String>,
}

/// `apibump.toml` as it is written, before its paths are normalised.
#[derive(Debug, Clone, PartialEq, Eq)]
pub struct RawConfig {
    pub version: u32,
    pub defaults: ConfigDefaults,
    pub packages: Vec<RawPackage>,
    pub ignore: Vec<IgnoreRule>,
}

/// One `[[packages]]` entry as it is written.
#[derive(Debug, Clone, PartialEq, Eq)]
pub struct RawPackage {
    pub package: String,
    pub search: Vec<String>,
    pub roots: Option<Vec<String>>,
}

/// Why a configuration is refused.
#[derive(Debug, Clone, PartialEq, Eq)]
pub enum ConfigError {
    NotFound { path: String },
    UnsupportedVersion { version: u32, path: String },
    MissingSearchPath { package: String, path: String },
    OutsideRepo { path: String, repo: String },
}

pub ghost enum ConfigErrorView {
    NotFound { path: Seq<char> },
    UnsupportedVersion { version: u32, path: Seq<char> },
    MissingSearchPath { package: Seq<char>, path: Seq<char> },
    OutsideRepo { path: Seq<char>, repo: Seq<char> },
}

impl View for ConfigError {
    type V = ConfigErrorView;

    open spec fn view(&self) -> ConfigErrorView {
        match self {
            ConfigError::NotFound { path } => ConfigErrorView::NotFound { path: path@ },
            ConfigError::UnsupportedVersion { version, path } => ConfigErrorView::UnsupportedVersion {
                version: *version,
                path: path@,
            },
            ConfigError::MissingSearchPath { package, path } => ConfigErrorView::MissingSearchPath {
                package: package@,
                path: path@,
            },
            ConfigError::OutsideRepo { path, repo } => ConfigErrorView::OutsideRepo {
                path: path@,
                repo: repo@,
            },
        }
    }
}

pub open spec fn config_error_text(e: ConfigErrorView) -> Seq<char> {
    match e {
        ConfigErrorView::NotFound { path } => "config file not found: "@ + path,
        ConfigErrorView::UnsupportedVersion { version, path } => "unsupported apibump.toml version "@
            + decimal(version as nat) + " in "@ + path,
        ConfigErrorView::MissingSearchPath { package, path } => "package "@ + package + " in "@ + path
            + " must declare at least one search path"@,
        ConfigErrorView::OutsideRepo { path, repo } => "path "@ + path + " is outside repo "@ + repo,
    }
}

impl ConfigError {
    /// The message that explains the refusal.
    pub fn message(&self) -> (r: String)
        ensures
            r@ == config_error_text(self@),
    {
        match self {
            ConfigError::NotFound { path } => concat2("config file not found: ", path.as_str()),
            ConfigError::UnsupportedVersion { version, path } => {
                let mut r = String::from_str("unsupported apibump.toml version ");
                push_decimal(&mut r, *version as u64);
                r.append(" in ");
                r.append(path.as_str());
                r
            },
            ConfigError::MissingSearchPath { package, path } => {
                let mut r = String::from_str("package ");
                r.append(package.as_str());
                r.append(" in ");
                r.append(path.as_str());
                r.append(" must declare at least one search path");
                r
            },
            ConfigError::OutsideRepo { path, repo } => {
                let mut r = String::from_str("path ");
                r.append(path.as_str());
                r.append(" is outside repo ");
                r.append(repo.as_str());
                r
            },
        }
    }
}

pub ghost struct ConfigPackageView {
    pub package: Seq<char>,
    pub search: Seq<Seq<char>>,
    pub roots: Seq<Seq<char>>,
}

impl View for ConfigPackage {
    type V = ConfigPackageView;

    open spec fn view(&self) -> ConfigPackageView {
        ConfigPackageView {
            package: self.package@,
            search: string_views(self.search@),
            roots: string_views(self.roots@),
        }
    }
}

pub ghost struct IgnoreRuleView {
    pub symbol: Seq<char>,
    pub kind: Option<Seq<char>>,
    pub package: Option<Seq<char>>,
    pub reason: Option<Seq<char>>,
}

impl View for IgnoreRule {
    type V = IgnoreRuleView;

    open spec fn view(&self) -> IgnoreRuleView {
        IgnoreRuleView {
            symbol: self.symbol@,
            kind: opt_str(self.kind),
            package: opt_str(self.package),
            reason: opt_str(self.reason),
        }
    }
}

impl IgnoreRule {
    /// A field-by-field copy.
    pub fn copy(&self) -> (r: IgnoreRule)
        ensures
            r@ == self@,
    {
        IgnoreRule {
            symbol: self.symbol.clone(),
            kind: opt_string_copy(&self.kind),
            package: opt_string_copy(&self.package),
            reason: opt_string_copy(&self.reason),
        }
    }
}

pub open spec fn ignore_views(rules: Seq<IgnoreRule>) -> Seq<IgnoreRuleView> {
    rules.map_values(|r: IgnoreRule| r@)
}

pub open spec fn package_views(packages: Seq<ConfigPackage>) -> Seq<ConfigPackageView> {
    packages.map_values(|p: ConfigPackage| p@)
}

impl ConfigPackage {
    /// The roots of a package that names none: its search paths.
    pub fn default_roots(search: &[String]) -> (r: Vec<String>)
        ensures
            string_views(r@) == string_views(search@),
    {
        let mut r: Vec<String> = Vec::new();
        let n = search.len();
        for i in 0..n
            invariant
                n == search@.len(),
                string_views(r@) == string_views(search@.take(i as int)),
        {
            let ghost before = string_views(r@);
            r.push(search[i].clone());
            assert(string_views(r@) =~= before.push(search@[i as int]@));
            assert(string_views(search@.take(i + 1)) =~= string_views(search@.take(i as int)).push(
                search@[i as int]@,
            ));
        }
        assert(search@.take(n as int) =~= search@);
        r
    }
}

/// `path` made relative to `repo`: a relative `path` is first taken relative to `base_dir`.
/// `None` where the result does not lie inside `repo`.
pub open spec fn normalize_spec(base_dir: Seq<char>, repo: Seq<char>, path: Seq<char>) -> Option<Seq<char>> {
    strip_prefix_spec(repo, join_path_spec(base_dir, path))
}

/// `path` made relative to `repo`, or the absolute form of `path` that lies outside `repo`.
pub fn normalize_rel_path(base_dir: &str, repo: &str, path: &str) -> (r: Result<String, ConfigError>)
    ensures
        match r {
            Ok(s) => normalize_spec(base_dir@, repo@, path@) == Some(s@),
            Err(e) => normalize_spec(base_dir@, repo@, path@) is None && e@ == (ConfigErrorView::OutsideRepo {
                path: join_path_spec(base_dir@, path@),
                repo: repo@,
            }),
        },
{
    let absolute = join_path(base_dir, path);
    match strip_prefix(repo, absolute.as_str()) {
        Some(normalized) => Ok(normalized),
        None => Err(ConfigError::OutsideRepo { path: absolute, repo: String::from_str(repo) }),
    }
}

/// All of `paths` made relative to `repo`, or the absolute form of the first that lies outside.
pub open spec fn normalize_all_spec(
    base_dir: Seq<char>,
    repo: Seq<char>,
    paths: Seq<Seq<char>>,
) -> Result<Seq<Seq<char>>, Seq<char>>
    decreases paths.len(),
{
    if paths.len() == 0 {
        Ok(Seq::empty())
    } else {
        match normalize_all_spec(base_dir, repo, paths.drop_last()) {
            Err(e) => Err(e),
            Ok(done) => match normalize_spec(base_dir, repo, paths.last()) {
                Some(p) => Ok(done.push(p)),
                None => Err(join_path_spec(base_dir, paths.last())),
            },
        }
    }
}

pub open spec fn outside_error(absolute: Seq<char>, repo: Seq<char>) -> ConfigErrorView {
    ConfigErrorView::OutsideRepo { path: absolute, repo }
}

fn normalize_rel_paths(base_dir: &str, repo: &str, paths: &Vec<String>) -> (r: Result<Vec<String>, ConfigError>)
    ensures
        match r {
            Ok(v) => normalize_all_spec(base_dir@, repo@, string_views(paths@)) == Ok::<
                Seq<Seq<char>>,
                Seq<char>,
            >(string_views(v@)),
            Err(e) => normalize_all_spec(base_dir@, repo@, string_views(paths@)) matches Err(a)
                && e@ == outside_error(a, repo@),
        },
{
    let mut r: Vec<String> = Vec::new();
    let n = paths.len();
    assert(string_views(paths@).take(0) =~= Seq::<Seq<char>>::empty());
    assert(string_views(r@) =~= Seq::<Seq<char>>::empty());
    for i in 0..n
        invariant
            n == paths@.len(),
            normalize_all_spec(base_dir@, repo@, string_views(paths@).take(i as int)) == Ok::<
                Seq<Seq<char>>,
                Seq<char>,
            >(string_views(r@)),
    {
        let ghost done = string_views(paths@).take(i as int);
        proof {
            assert(string_views(paths@).take(i + 1).drop_last() =~= done);
            assert(string_views(paths@).take(i + 1).last() == paths@[i as int]@);
        }
        match normalize_rel_path(base_dir, repo, paths[i].as_str()) {
            Ok(p) => {
                let ghost before = string_views(r@);
                let ghost pv = p@;
                r.push(p);
                assert(string_views(r@) =~= before.push(pv));
            },
            Err(e) => {
                proof {
                    lemma_normalize_all_error_stays(
                        base_dir@,
                        repo@,
                        string_views(paths@),
                        i + 1,
                    );
                }
                return Err(e);
            },
        }
    }
    assert(string_views(paths@).take(n as int) =~= string_views(paths@));
    Ok(r)
}

/// Once a prefix of `paths` fails, all of `paths` fails with the same path.
proof fn lemma_normalize_all_error_stays(
    base_dir: Seq<char>,
    repo: Seq<char>,
    paths: Seq<Seq<char>>,
    k: int,
)
    requires
        0 <= k <= paths.len(),
        normalize_all_spec(base_dir, repo, paths.take(k)) is Err,
    ensures
        normalize_all_spec(base_dir, repo, paths) == normalize_all_spec(base_dir, repo, paths.take(k)),
    decreases paths.len() - k,
{
    if k < paths.len() {
        assert(paths.take(k + 1).drop_last() =~= paths.take(k));
        lemma_normalize_all_error_stays(base_dir, repo, paths, k + 1);
    } else {
        assert(paths.take(k) =~= paths);
    }
}

/// The packages of a raw configuration, with their paths made relative to the repository; the
/// first refusal, in the order of the packages, where one is refused.
pub open spec fn package_spec(
    base_dir: Seq<char>,
    repo: Seq<char>,
    config_path: Seq<char>,
    raw: RawPackage,
) -> Result<ConfigPackageView, ConfigErrorView> {
    if raw.search@.len() == 0 {
        Err(ConfigErrorView::MissingSearchPath { package: raw.package@, path: config_path })
    } else {
        match normalize_all_spec(base_dir, repo, string_views(raw.search@)) {
            Err(a) => Err(outside_error(a, repo)),
            Ok(search) => match raw.roots {
                None => Ok(ConfigPackageView { package: raw.package@, search, roots: search }),
                Some(r) => match normalize_all_spec(base_dir, repo, string_views(r@)) {
                    Err(a) => Err(outside_error(a, repo)),
                    Ok(roots) => Ok(ConfigPackageView { package: raw.package@, search, roots }),
                },
            },
        }
    }
}

pub open spec fn packages_spec(
    base_dir: Seq<char>,
    repo: Seq<char>,
    config_path: Seq<char>,
    raws: Seq<RawPackage>,
) -> Result<Seq<ConfigPackageView>, ConfigErrorView>
    decreases raws.len(),
{
    if raws.len() == 0 {
        Ok(Seq::empty())
    } else {
        match packages_spec(base_dir, repo, config_path, raws.drop_last()) {
            Err(e) => Err(e),
            Ok(done) => match package_spec(base_dir, repo, config_path, raws.last()) {
                Err(e) => Err(e),
                Ok(p) => Ok(done.push(p)),
            },
        }
    }
}

proof fn lemma_packages_error_stays(
    base_dir: Seq<char>,
    repo: Seq<char>,
    config_path: Seq<char>,
    raws: Seq<RawPackage>,
    k: int,
)
    requires
        0 <= k <= raws.len(),
        packages_spec(base_dir, repo, config_path, raws.take(k)) is Err,
    ensures
        packages_spec(base_dir, repo, config_path, raws) == packages_spec(
            base_dir,
            repo,
            config_path,
            raws.take(k),
        ),
    decreases raws.len() - k,
{
    if k < raws.len() {
        assert(raws.take(k + 1).drop_last() =~= raws.take(k));
        lemma_packages_error_stays(base_dir, repo, config_path, raws, k + 1);
    } else {
        assert(raws.take(k) =~= raws);
    }
}

fn build_package(base_dir: &str, repo: &str, config_path: &str, raw: &RawPackage) -> (r: Result<
    ConfigPackage,
    ConfigError,
>)
    ensures
        match r {
            Ok(p) => package_spec(base_dir@, repo@, config_path@, *raw) == Ok::<
                ConfigPackageView,
                ConfigErrorView,
            >(p@),
            Err(e) => package_spec(base_dir@, repo@, config_path@, *raw) == Err::<
                ConfigPackageView,
                ConfigErrorView,
            >(e@),
        },
{
    if raw.search.len() == 0 {
        return Err(
            ConfigError::MissingSearchPath {
                package: raw.package.clone(),
                path: String::from_str(config_path),
            },
        );
    }
    let search = match normalize_rel_paths(base_dir, repo, &raw.search) {
        Ok(s) => s,
        Err(e) => return Err(e),
    };
    let roots = match &raw.roots {
        Some(roots) => match normalize_rel_paths(base_dir, repo, roots) {
            Ok(r) => r,
            Err(e) => return Err(e),
        },
        None => ConfigPackage::default_roots(search.as_slice()),
    };
    Ok(ConfigPackage { package: raw.package.clone(), search, roots })
}

/// The path of the configuration file: `explicit` inside `repo`, or `apibump.toml` there.
pub fn config_path(repo: &str, explicit: Option<&str>) -> (r: String)
    ensures
        r@ == join_path_spec(
            repo@,
            match explicit {
                Some(p) => p@,
                None => "apibump.toml"@,
            },
        ),
{
    match explicit {
        Some(p) => join_path(repo, p),
        None => join_path(repo, "apibump.toml"),
    }
}

/// What loading yields when the configuration file does not exist: nothing when none was asked
/// for, and a refusal when one was named explicitly.
pub fn missing_config(path: &str, explicit: bool) -> (r: Result<Option<ApibumpConfig>, ConfigError>)
    ensures
        explicit ==> (r matches Err(e) && e@ == (ConfigErrorView::NotFound { path: path@ })),
        !explicit ==> r matches Ok(None),
{
    if explicit {
        Err(ConfigError::NotFound { path: String::from_str(path) })
    } else {
        Ok(None)
    }
}

/// A parsed configuration, checked and with its paths made relative to `repo`: the file at
/// `path` must declare version 1, and each package at least one search path that, like its
/// roots, lies inside `repo`. Roots default to the search paths.
pub fn build_config(repo: &str, path: &str, raw: RawConfig) -> (r: Result<ApibumpConfig, ConfigError>)
    ensures
        raw.version != 1 ==> (r matches Err(e) && e@ == (ConfigErrorView::UnsupportedVersion {
            version: raw.version,
            path: path@,
        })),
        raw.version == 1 ==> {
            let base_dir = match parent_path_spec(path@) {
                Some(b) => b,
                None => repo@,
            };
            match packages_spec(base_dir, repo@, path@, raw.packages@) {
                Err(e) => (r matches Err(x) && x@ == e),
                Ok(packages) => (r matches Ok(config) && {
                    &&& config.path@ == path@
                    &&& config.version == 1
                    &&& config.defaults == raw.defaults
                    &&& package_views(config.packages@) == packages
                    &&& ignore_views(config.ignore@) == ignore_views(raw.ignore@)
                }),
            }
        },
{
    if raw.version != 1 {
        return Err(ConfigError::UnsupportedVersion { version: raw.version, path: String::from_str(path) });
    }
    let base_dir = match parent_path(path) {
        Some(b) => b,
        None => String::from_str(repo),
    };
    let mut packages: Vec<ConfigPackage> = Vec::new();
    let n = raw.packages.len();
    assert(raw.packages@.take(0) =~= Seq::<RawPackage>::empty());
    assert(package_views(packages@) =~= Seq::<ConfigPackageView>::empty());
    for i in 0..n
        invariant
            n == raw.packages@.len(),
            raw.version == 1,
            base_dir@ == match parent_path_spec(path@) {
                Some(b) => b,
                None => repo@,
            },
            packages_spec(base_dir@, repo@, path@, raw.packages@.take(i as int)) == Ok::<
                Seq<ConfigPackageView>,
                ConfigErrorView,
            >(package_views(packages@)),
    {
        proof {
            assert(raw.packages@.take(i + 1).drop_last() =~= raw.packages@.take(i as int));
            assert(raw.packages@.take(i + 1).last() == raw.packages@[i as int]);
        }
        match build_package(base_dir.as_str(), repo, path, &raw.packages[i]) {
            Ok(p) => {
                let ghost before = package_views(packages@);
                let ghost pv = p@;
                packages.push(p);
                assert(package_views(packages@) =~= before.push(pv));
            },
            Err(e) => {
                proof {
                    lemma_packages_error_stays(base_dir@, repo@, path@, raw.packages@, i + 1);
                }
                return Err(e);
            },
        }
    }
    assert(raw.packages@.take(n as int) =~= raw.packages@);
    let mut ignore: Vec<IgnoreRule> = Vec::new();
    let m = raw.ignore.len();
    assert(ignore_views(ignore@) =~= ignore_views(raw.ignore@.take(0)));
    for i in 0..m
        invariant
            m == raw.ignore@.len(),
            ignore_views(ignore@) == ignore_views(raw.ignore@.take(i as int)),
    {
        let ghost before = ignore_views(ignore@);
        ignore.push(raw.ignore[i].copy());
        assert(ignore_views(ignore@) =~= before.push(raw.ignore@[i as int]@));
        assert(ignore_views(raw.ignore@.take(i + 1)) =~= ignore_views(raw.ignore@.take(i as int)).push(
            raw.ignore@[i as int]@,
        ));
    }
    assert(raw.ignore@.take(m as int) =~= raw.ignore@);
    Ok(ApibumpConfig {
        path: String::from_str(path),
        version: raw.version,
        defaults: raw.defaults,
        packages,
        ignore,
    })
}

proof fn lemma_packages_spec_elements(
    base_dir: Seq<char>,
    repo: Seq<char>,
    config_path: Seq<char>,
    raws: Seq<RawPackage>,
)
    ensures
        packages_spec(base_dir, repo, config_path, raws) matches Ok(ps) ==> {
            &&& ps.len() == raws.len()
            &&& forall|i: int|
                0 <= i < raws.len() ==> package_spec(base_dir, repo, config_path, #[trigger] raws[i])
                    == Ok::<ConfigPackageView, ConfigErrorView>(ps[i])
        },
    decreases raws.len(),
{
    if raws.len() > 0 {
        let d = raws.drop_last();
        lemma_packages_spec_elements(base_dir, repo, config_path, d);
        if let Ok(ps) = packages_spec(base_dir, repo, config_path, raws) {
            let front = packages_spec(base_dir, repo, config_path, d)->Ok_0;
            assert forall|i: int| 0 <= i < raws.len() implies package_spec(
                base_dir,
                repo,
                config_path,
                #[trigger] raws[i],
            ) == Ok::<ConfigPackageView, ConfigErrorView>(ps[i]) by {
                if i < d.len() {
                    assert(raws[i] == d[i]);
                    assert(ps[i] == front[i]);
                }
            }
        }
    }
}

/// Roots default to the search paths: wherever the configuration file lies, every package that
/// names no roots gets its (normalised) search paths as roots, and the packages come in the
/// order of the file.
pub proof fn law_roots_default_to_search(
    base_dir: Seq<char>,
    repo: Seq<char>,
    config_path: Seq<char>,
    raws: Seq<RawPackage>,
)
    ensures
        packages_spec(base_dir, repo, config_path, raws) matches Ok(ps) ==> ps.len() == raws.len()
            && forall|i: int|
            0 <= i < raws.len() && (#[trigger] raws[i]).roots is None ==> ps[i].roots == ps[i].search,
{
    lemma_packages_spec_elements(base_dir, repo, config_path, raws);
}

} // verus!
