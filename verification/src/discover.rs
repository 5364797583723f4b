use vstd::prelude::*;

use crate::config::SelectionMode;
use crate::paths::{components, components_prefix, split_on, is_named_segment, named_segments, is_prefix_of, join_path, join_path_spec, path_components, strip_prefix, strip_prefix_spec};
use crate::sorting::{
    law_sort_by_is_permutation, law_sort_by_is_sorted, lemma_insert_by_position, sort_by, sorted_by,
    strict_weak_order,
};
use crate::text::{
    before_first, chars_of, concat3, insert_sorted_text, lemma_seq_less_asymmetric,
    lemma_seq_less_irreflexive, lemma_seq_less_total, lemma_seq_less_transitive, lemma_sorted_texts,
    lowercase, opt_string_copy, push_char, replace_chars, replace_separators, seq_less, sorted_texts,
    string_from_chars, string_views, strictly_sorted, text_before, text_equal, text_order,
    to_lowercase, trim, trim_text, TextOrder,
};

verus! {

/// A Python package found in the repository or named by the configuration.
#[derive(Debug, Clone, PartialEq, Eq)]
pub struct DiscoveredPackage {
    pub package: String,
    pub search: Vec<String>,
    pub roots: Vec<String>,
    pub manifest_path: String,
}

pub ghost struct DiscoveredPackageView {
    pub package: Seq<char>,
    pub search: Seq<Seq<char>>,
    pub roots: Seq<Seq<char>>,
    pub manifest_path: Seq<char>,
}

impl View for DiscoveredPackage {
    type V = DiscoveredPackageView;

    open spec fn view(&self) -> DiscoveredPackageView {
        DiscoveredPackageView {
            package: self.package@,
            search: string_views(self.search@),
            roots: string_views(self.roots@),
            manifest_path: self.manifest_path@,
        }
    }
}

impl DiscoveredPackage {
    /// A field-by-field copy.
    pub fn copy(&self) -> (r: DiscoveredPackage)
        ensures
            r@ == self@,
    {
        DiscoveredPackage {
            package: self.package.clone(),
            search: self.search.clone(),
            roots: self.roots.clone(),
            manifest_path: self.manifest_path.clone(),
        }
    }
}

pub open spec fn discovered_views(packages: Seq<DiscoveredPackage>) -> Seq<DiscoveredPackageView> {
    packages.map_values(|p: DiscoveredPackage| p@)
}

/// How the packages of a check were found.
#[derive(Debug, Clone, PartialEq, Eq)]
pub enum PackageDetection {
    Explicit(DiscoveredPackage),
    Configured(Vec<DiscoveredPackage>),
    AutoDetected(DiscoveredPackage),
}

/// `path` lies inside `root`: `root` is empty or `.`, or its components begin those of `path`.
pub open spec fn within(path: Seq<char>, root: Seq<char>) -> bool {
    root.len() == 0 || path_components(root) == seq!["."@] || is_prefix_of(
        path_components(root),
        path_components(path),
    )
}

/// Whether `path` lies inside `root`.
pub fn path_is_within(path: &str, root: &str) -> (r: bool)
    ensures
        r == within(path@, root@),
{
    let root_components = components(root);
    if root.unicode_len() == 0 {
        return true;
    }
    if root_components.len() == 1 && text_equal(root_components[0].as_str(), ".") {
        assert(string_views(root_components@) =~= seq!["."@]);
        return true;
    }
    proof {
        if string_views(root_components@) == seq!["."@] {
            assert(string_views(root_components@).len() == 1);
            assert(string_views(root_components@)[0] == root_components@[0]@);
            assert(seq!["."@][0] == "."@);
        }
    }
    let path_components_exec = components(path);
    components_prefix(&root_components, &path_components_exec)
}

/// Some changed file lies inside some root.
pub open spec fn roots_changed(roots: Seq<Seq<char>>, changed_files: Seq<Seq<char>>) -> bool {
    exists|i: int, j: int|
        0 <= i < changed_files.len() && 0 <= j < roots.len() && #[trigger] within(
            changed_files[i],
            roots[j],
        )
}

/// Every path lies inside itself, inside the empty root and inside `.`.
pub proof fn law_within_itself_and_current_dir(path: Seq<char>)
    ensures
        within(path, path),
        within(path, Seq::empty()),
        within(path, "."@),
{
    reveal_strlit(".");
    let dot = "."@;
    assert(dot.len() == 1 && dot[0] == '.');
    assert(dot.drop_last() =~= Seq::<char>::empty());
    assert(split_on(dot.drop_last(), '/') =~= seq![Seq::<char>::empty()]);
    assert(Seq::<char>::empty().push('.') =~= dot);
    assert(split_on(dot, '/') =~= seq![dot]);
    let pieces = split_on(dot, '/');
    assert(pieces.drop_last() =~= Seq::<Seq<char>>::empty());
    assert(!is_named_segment(pieces.last()));
    assert(named_segments(pieces.drop_last()) =~= Seq::<Seq<char>>::empty());
    assert(named_segments(pieces) =~= Seq::<Seq<char>>::empty());
    assert(path_components(dot) =~= seq!["."@]);
    assert(path_components(path).take(path_components(path).len() as int) =~= path_components(path));
}

/// Where `.` is among the roots, any changed file at all is a change of the package.
pub proof fn law_current_dir_root_sees_every_change(roots: Seq<Seq<char>>, changed_files: Seq<Seq<char>>)
    requires
        roots.contains("."@),
    ensures
        roots_changed(roots, changed_files) <==> changed_files.len() > 0,
{
    if changed_files.len() > 0 {
        let j = choose|j: int| 0 <= j < roots.len() && roots[j] == "."@;
        law_within_itself_and_current_dir(changed_files[0]);
        assert(within(changed_files[0], roots[j]));
    }
}

/// Whether some changed file lies inside one of `roots`.
pub fn package_has_changed(roots: &[String], changed_files: &[String]) -> (r: bool)
    ensures
        r == roots_changed(string_views(roots@), string_views(changed_files@)),
{
    let ghost rs = string_views(roots@);
    let ghost cs = string_views(changed_files@);
    let n = changed_files.len();
    let m = roots.len();
    for i in 0..n
        invariant
            n == changed_files@.len(),
            m == roots@.len(),
            rs == string_views(roots@),
            cs == string_views(changed_files@),
            forall|a: int, b: int| 0 <= a < i && 0 <= b < m ==> !#[trigger] within(cs[a], rs[b]),
    {
        for j in 0..m
            invariant
                n == changed_files@.len(),
                m == roots@.len(),
                i < n,
                rs == string_views(roots@),
                cs == string_views(changed_files@),
                forall|a: int, b: int| 0 <= a < i && 0 <= b < m ==> !#[trigger] within(cs[a], rs[b]),
                forall|b: int| 0 <= b < j ==> !#[trigger] within(cs[i as int], rs[b]),
        {
            if path_is_within(changed_files[i].as_str(), roots[j].as_str()) {
                assert(within(cs[i as int], rs[j as int]));
                return true;
            }
        }
    }
    false
}

/// The packages of `packages` whose roots hold a changed file, in order.
pub open spec fn changed_packages(
    packages: Seq<DiscoveredPackageView>,
    changed_files: Seq<Seq<char>>,
) -> Seq<DiscoveredPackageView>
    decreases packages.len(),
{
    if packages.len() == 0 {
        Seq::empty()
    } else {
        changed_packages(packages.drop_last(), changed_files) + if roots_changed(
            packages.last().roots,
            changed_files,
        ) {
            seq![packages.last()]
        } else {
            Seq::empty()
        }
    }
}

/// The packages that a check looks at: all of them when asked for all, otherwise those whose
/// roots hold a changed file.
pub open spec fn selected_packages_spec(
    packages: Seq<DiscoveredPackageView>,
    changed_files: Seq<Seq<char>>,
    selection: SelectionMode,
    all_packages: bool,
) -> Seq<DiscoveredPackageView> {
    if all_packages || selection == SelectionMode::All {
        packages
    } else {
        changed_packages(packages, changed_files)
    }
}

/// Selecting changed packages keeps exactly the packages whose roots hold a changed file: each
/// package kept was given and has a changed file under its roots, and each given package that
/// has one is kept.
pub proof fn law_changed_selection_is_exact(
    packages: Seq<DiscoveredPackageView>,
    changed_files: Seq<Seq<char>>,
)
    ensures
        forall|i: int|
            0 <= i < changed_packages(packages, changed_files).len() ==> packages.contains(
                #[trigger] changed_packages(packages, changed_files)[i],
            ) && roots_changed(changed_packages(packages, changed_files)[i].roots, changed_files),
        forall|j: int|
            0 <= j < packages.len() && roots_changed(packages[j].roots, changed_files) ==> changed_packages(
                packages,
                changed_files,
            ).contains(#[trigger] packages[j]),
    decreases packages.len(),
{
    if packages.len() > 0 {
        let d = packages.drop_last();
        law_changed_selection_is_exact(d, changed_files);
        let front = changed_packages(d, changed_files);
        let r = changed_packages(packages, changed_files);
        let last = packages[packages.len() - 1];
        assert forall|i: int| 0 <= i < r.len() implies packages.contains(#[trigger] r[i]) && roots_changed(
            r[i].roots,
            changed_files,
        ) by {
            if i < front.len() {
                assert(r[i] == front[i]);
                let k = choose|k: int| 0 <= k < d.len() && d[k] == front[i];
                assert(packages[k] == d[k]);
            } else {
                assert(r[i] == last);
            }
        }
        assert forall|j: int| 0 <= j < packages.len() && roots_changed(packages[j].roots, changed_files) implies r.contains(
            #[trigger] packages[j],
        ) by {
            if j < d.len() {
                assert(packages[j] == d[j]);
                assert(front.contains(d[j]));
                let k = choose|k: int| 0 <= k < front.len() && front[k] == d[j];
                assert(r[k] == front[k]);
            } else {
                assert(r[r.len() - 1] == last);
            }
        }
    }
}

/// The packages that a check looks at.
pub fn select_changed_packages(
    packages: &[DiscoveredPackage],
    changed_files: &[String],
    selection: SelectionMode,
    all_packages: bool,
) -> (r: Vec<DiscoveredPackage>)
    ensures
        discovered_views(r@) == selected_packages_spec(
            discovered_views(packages@),
            string_views(changed_files@),
            selection,
            all_packages,
        ),
{
    let ghost all = discovered_views(packages@);
    let keep_all = all_packages || selection == SelectionMode::All;
    let mut r: Vec<DiscoveredPackage> = Vec::new();
    let n = packages.len();
    assert(discovered_views(r@) =~= Seq::<DiscoveredPackageView>::empty());
    for i in 0..n
        invariant
            n == packages@.len(),
            all == discovered_views(packages@),
            keep_all == (all_packages || selection == SelectionMode::All),
            keep_all ==> discovered_views(r@) == all.take(i as int),
            !keep_all ==> discovered_views(r@) == changed_packages(
                all.take(i as int),
                string_views(changed_files@),
            ),
    {
        let ghost before = discovered_views(r@);
        proof {
            assert(all.take(i + 1).drop_last() =~= all.take(i as int));
            assert(all.take(i + 1).last() == packages@[i as int]@);
        }
        if keep_all || package_has_changed(packages[i].roots.as_slice(), changed_files) {
            r.push(packages[i].copy());
            assert(discovered_views(r@) =~= before.push(packages@[i as int]@));
        }
        assert(all.take(i + 1) =~= all.take(i as int).push(packages@[i as int]@));
    }
    assert(all.take(n as int) =~= all);
    r
}

/// Whether the directory walk enters an entry: every file, and every directory but `.git`,
/// `target`, `.venv` and `__pycache__`.
pub fn should_walk(is_dir: bool, file_name: &str) -> (r: bool)
    ensures
        r == (!is_dir || !(file_name@ == ".git"@ || file_name@ == "target"@ || file_name@ == ".venv"@
            || file_name@ == "__pycache__"@)),
{
    if !is_dir {
        return true;
    }
    !(text_equal(file_name, ".git") || text_equal(file_name, "target") || text_equal(file_name, ".venv")
        || text_equal(file_name, "__pycache__"))
}


/// `[project]` of a `pyproject.toml`.
#[derive(Debug, Clone, PartialEq, Eq)]
pub struct PyProjectProject {
    pub name: Option<String>,
    pub import_names: Option<Vec<String>>,
}

/// `[tool.poetry]` of a `pyproject.toml`.
#[derive(Debug, Clone, PartialEq, Eq)]
pub struct PyProjectPoetry {
    pub name: Option<String>,
}

/// `[tool.flit.module]` of a `pyproject.toml`.
#[derive(Debug, Clone, PartialEq, Eq)]
pub struct PyProjectFlitModule {
    pub name: Option<String>,
}

/// `[tool.flit]` of a `pyproject.toml`.
#[derive(Debug, Clone, PartialEq, Eq)]
pub struct PyProjectFlit {
    pub module: Option<PyProjectFlitModule>,
}

/// `[tool]` of a `pyproject.toml`.
#[derive(Debug, Clone, PartialEq, Eq)]
pub struct PyProjectTool {
    pub poetry: Option<PyProjectPoetry>,
    pub flit: Option<PyProjectFlit>,
}

/// What discovery reads of a `pyproject.toml`.
#[derive(Debug, Clone, PartialEq, Eq)]
pub struct PyProject {
    pub project: Option<PyProjectProject>,
    pub tool: Option<PyProjectTool>,
}

/// An import name as written: the part before any `;`, trimmed.
pub open spec fn sanitized_spec(value: Seq<char>) -> Seq<char> {
    trim(before_first(value, ';'))
}

/// A distribution name as an import name: trimmed, lower-cased, with `-`, `.` and spaces turned
/// into `_`.
pub open spec fn normalized_project_spec(value: Seq<char>) -> Seq<char> {
    replace_chars(lowercase(trim(value)), seq!['-', '.', ' '], '_')
}

/// The import name that a declared import name stands for.
pub fn sanitize_import_name(value: &str) -> (r: String)
    ensures
        r@ == sanitized_spec(value@),
{
    let head = text_before(value, ';');
    trim_text(head.as_str())
}

/// The import name that a distribution name stands for.
pub fn normalize_project_name(value: &str) -> (r: String)
    ensures
        r@ == normalized_project_spec(value@),
{
    let trimmed = trim_text(value);
    let lower = to_lowercase(trimmed.as_str());
    replace_separators(lower.as_str())
}

/// The import names that a `pyproject.toml` suggests, before empty ones are dropped: the
/// declared import names, the project name, the Poetry name and the Flit module name.
pub open spec fn import_name_candidates(py: PyProject) -> Seq<Seq<char>> {
    let declared: Seq<Seq<char>> = match py.project {
        Some(project) => match project.import_names {
            Some(names) => names@.map_values(|n: String| sanitized_spec(n@)),
            None => Seq::empty(),
        },
        None => Seq::empty(),
    };
    let project_name: Seq<Seq<char>> = match py.project {
        Some(project) => match project.name {
            Some(name) => seq![normalized_project_spec(name@)],
            None => Seq::empty(),
        },
        None => Seq::empty(),
    };
    let poetry_name: Seq<Seq<char>> = match py.tool {
        Some(tool) => match tool.poetry {
            Some(poetry) => match poetry.name {
                Some(name) => seq![normalized_project_spec(name@)],
                None => Seq::empty(),
            },
            None => Seq::empty(),
        },
        None => Seq::empty(),
    };
    let flit_name: Seq<Seq<char>> = match py.tool {
        Some(tool) => match tool.flit {
            Some(flit) => match flit.module {
                Some(module) => match module.name {
                    Some(name) => seq![sanitized_spec(name@)],
                    None => Seq::empty(),
                },
                None => Seq::empty(),
            },
            None => Seq::empty(),
        },
        None => Seq::empty(),
    };
    declared + project_name + poetry_name + flit_name
}

/// The non-empty import names that a `pyproject.toml` suggests.
pub open spec fn import_name_set(py: PyProject) -> Set<Seq<char>> {
    Set::new(|n: Seq<char>| import_name_candidates(py).contains(n) && n.len() > 0)
}

/// The non-empty texts of `seen`.
pub open spec fn nonempty_texts(seen: Seq<Seq<char>>) -> Set<Seq<char>> {
    Set::new(|x: Seq<char>| seen.contains(x) && x.len() > 0)
}

fn add_name(names: &mut Vec<String>, name: String, Ghost(seen): Ghost<Seq<Seq<char>>>)
    requires
        strictly_sorted(string_views(old(names)@)),
        string_views(old(names)@).to_set() == nonempty_texts(seen),
    ensures
        strictly_sorted(string_views(final(names)@)),
        string_views(final(names)@).to_set() == nonempty_texts(seen.push(name@)),
{
    let ghost before = string_views(names@);
    proof {
        assert forall|x: Seq<char>| before.contains(x) <==> (seen.contains(x) && x.len() > 0) by {
            assert(before.to_set().contains(x) == before.contains(x));
        }
    }
    if name.as_str().unicode_len() > 0 {
        insert_sorted_text(names, name);
    }
    proof {
        assert forall|x: Seq<char>|
            string_views(names@).contains(x) <==> ((seen.push(name@)).contains(x) && x.len() > 0) by {
            if seen.push(name@).contains(x) {
                let k = choose|k: int| 0 <= k < seen.len() + 1 && seen.push(name@)[k] == x;
                if k < seen.len() {
                    assert(seen[k] == x);
                }
            }
            if seen.contains(x) {
                let k = choose|k: int| 0 <= k < seen.len() && seen[k] == x;
                assert(seen.push(name@)[k] == x);
            }
            if x == name@ {
                assert(seen.push(name@)[seen.len() as int] == x);
            }
        }
        assert(string_views(names@).to_set() =~= nonempty_texts(seen.push(name@)));
    }
}

/// The import names that a `pyproject.toml` suggests, sorted, without repetitions and without
/// empty names.
pub fn pyproject_import_names(pyproject: &PyProject) -> (r: Vec<String>)
    ensures
        string_views(r@) == sorted_texts(import_name_set(*pyproject)),
{
    let ghost all = import_name_candidates(*pyproject);
    let mut names: Vec<String> = Vec::new();
    let ghost mut seen: Seq<Seq<char>> = Seq::empty();
    assert(string_views(names@) =~= Seq::<Seq<char>>::empty());
    assert(string_views(names@).to_set() =~= nonempty_texts(seen));
    if let Some(project) = &pyproject.project {
        if let Some(import_names) = &project.import_names {
            let n = import_names.len();
            for i in 0..n
                invariant
                    n == import_names@.len(),
                    seen == import_names@.take(i as int).map_values(|n: String| sanitized_spec(n@)),
                    strictly_sorted(string_views(names@)),
                    string_views(names@).to_set() == nonempty_texts(seen),
            {
                let sanitized = sanitize_import_name(import_names[i].as_str());
                add_name(&mut names, sanitized, Ghost(seen));
                proof {
                    assert(import_names@.take(i + 1).map_values(|n: String| sanitized_spec(n@))
                        =~= seen.push(sanitized_spec(import_names@[i as int]@)));
                    seen = seen.push(sanitized_spec(import_names@[i as int]@));
                }
            }
            assert(import_names@.take(n as int) =~= import_names@);
        }
    }
    let project_name = match &pyproject.project {
        Some(project) => opt_string_copy(&project.name),
        None => None,
    };
    let poetry_name = match &pyproject.tool {
        Some(tool) => match &tool.poetry {
            Some(poetry) => opt_string_copy(&poetry.name),
            None => None,
        },
        None => None,
    };
    let flit_name = match &pyproject.tool {
        Some(tool) => match &tool.flit {
            Some(flit) => match &flit.module {
                Some(module) => opt_string_copy(&module.name),
                None => None,
            },
            None => None,
        },
        None => None,
    };
    if let Some(name) = project_name {
        let normalized = normalize_project_name(name.as_str());
        let ghost added = normalized@;
        add_name(&mut names, normalized, Ghost(seen));
        proof {
            seen = seen.push(added);
        }
    }
    if let Some(name) = poetry_name {
        let normalized = normalize_project_name(name.as_str());
        let ghost added = normalized@;
        add_name(&mut names, normalized, Ghost(seen));
        proof {
            seen = seen.push(added);
        }
    }
    if let Some(name) = flit_name {
        let sanitized = sanitize_import_name(name.as_str());
        let ghost added = sanitized@;
        add_name(&mut names, sanitized, Ghost(seen));
        proof {
            seen = seen.push(added);
        }
    }
    proof {
        assert(seen =~= all);
        assert forall|x: Seq<char>| string_views(names@).contains(x) <==> import_name_set(*pyproject).contains(x) by {
            assert(string_views(names@).to_set().contains(x) == string_views(names@).contains(x));
        }
        lemma_sorted_texts(string_views(names@), import_name_set(*pyproject));
    }
    names
}

pub open spec fn is_ascii_alphabetic(c: char) -> bool {
    ('a' <= c && c <= 'z') || ('A' <= c && c <= 'Z')
}

pub open spec fn is_ascii_alphanumeric(c: char) -> bool {
    is_ascii_alphabetic(c) || ('0' <= c && c <= '9')
}

/// Directory names that discovery never takes for a package.
pub open spec fn reserved_directory_name(value: Seq<char>) -> bool {
    value == "__pycache__"@ || value == "tests"@ || value == "test"@ || value == "docs"@ || value
        == "doc"@ || value == "examples"@ || value == "example"@ || value == "scripts"@ || value
        == "tasks"@ || value == "benchmarks"@
}

/// A directory name that looks like an importable package: not private, hidden or reserved, an
/// ASCII letter first, then ASCII letters, digits and underscores.
pub open spec fn likely_package_name(value: Seq<char>) -> bool {
    &&& !(value.len() > 0 && (value[0] == '_' || value[0] == '.'))
    &&& !reserved_directory_name(value)
    &&& value.len() > 0
    &&& is_ascii_alphabetic(value[0])
    &&& forall|k: int| 1 <= k < value.len() ==> is_ascii_alphanumeric(#[trigger] value[k]) || value[k] == '_'
}

/// Whether a directory name looks like an importable package.
pub fn is_likely_package_name(value: &str) -> (r: bool)
    ensures
        r == likely_package_name(value@),
{
    let chars = chars_of(value);
    let n = chars.len();
    if n > 0 && (chars[0] == '_' || chars[0] == '.') {
        return false;
    }
    if text_equal(value, "__pycache__") || text_equal(value, "tests") || text_equal(value, "test")
        || text_equal(value, "docs") || text_equal(value, "doc") || text_equal(value, "examples")
        || text_equal(value, "example") || text_equal(value, "scripts") || text_equal(value, "tasks")
        || text_equal(value, "benchmarks") {
        return false;
    }
    if n == 0 {
        return false;
    }
    let first = chars[0];
    if !(('a' <= first && first <= 'z') || ('A' <= first && first <= 'Z')) {
        return false;
    }
    for k in 1..n
        invariant
            n == chars@.len(),
            chars@ == value@,
            forall|j: int| 1 <= j < k ==> is_ascii_alphanumeric(#[trigger] chars@[j]) || chars@[j] == '_',
    {
        let c = chars[k];
        if !(('a' <= c && c <= 'z') || ('A' <= c && c <= 'Z') || ('0' <= c && c <= '9') || c == '_') {
            assert(!(is_ascii_alphanumeric(chars@[k as int]) || chars@[k as int] == '_'));
            return false;
        }
    }
    true
}

/// Why discovery failed.
#[derive(Debug, Clone, PartialEq, Eq)]
pub enum DiscoverError {
    OutsideRepo { path: String, repo: String },
}

impl DiscoverError {
    /// The message that explains the failure.
    pub fn message(&self) -> (r: String)
        ensures
            match self {
                DiscoverError::OutsideRepo { path, repo } => r@ == path@ + " is outside "@ + repo@,
            },
    {
        match self {
            DiscoverError::OutsideRepo { path, repo } => concat3(path.as_str(), " is outside ", repo.as_str()),
        }
    }
}

/// `path` made relative to `repo`, or the refusal that names both.
pub fn repo_relative(repo: &str, path: &str) -> (r: Result<String, DiscoverError>)
    ensures
        match r {
            Ok(s) => strip_prefix_spec(repo@, path@) == Some(s@),
            Err(DiscoverError::OutsideRepo { path: p, repo: q }) => strip_prefix_spec(repo@, path@) is None
                && p@ == path@ && q@ == repo@,
        },
{
    match strip_prefix(repo, path) {
        Some(s) => Ok(s),
        None => Err(DiscoverError::OutsideRepo { path: String::from_str(path), repo: String::from_str(repo) }),
    }
}


/// `e` is the refusal of `path` as lying outside `repo`.
pub open spec fn is_outside_error(e: DiscoverError, path: Seq<char>, repo: Seq<char>) -> bool {
    match e {
        DiscoverError::OutsideRepo { path: p, repo: q } => p@ == path && q@ == repo,
    }
}

/// A place where a package directory may stand: the directory searched, the package directory
/// in it, and its `__init__.py`, with whether that file exists.
#[derive(Debug, Clone, PartialEq, Eq)]
pub struct CandidateLayout {
    pub search_dir: String,
    pub package_dir: String,
    pub init_file: String,
    pub init_exists: bool,
}

/// The two layouts in which `import_name` may stand beside a manifest in `manifest_dir`: under
/// `src/`, then directly beside the manifest. Whether their `__init__.py` exists is not known
/// yet.
pub fn candidate_layouts(manifest_dir: &str, import_name: &str) -> (r: Vec<CandidateLayout>)
    ensures
        r@.len() == 2,
        r@[0].search_dir@ == join_path_spec(manifest_dir@, "src"@),
        r@[1].search_dir@ == manifest_dir@,
        forall|i: int| 0 <= i < 2 ==> {
            &&& #[trigger] r@[i].package_dir@ == join_path_spec(r@[i].search_dir@, import_name@)
            &&& r@[i].init_file@ == join_path_spec(r@[i].package_dir@, "__init__.py"@)
            &&& !r@[i].init_exists
        },
{
    let src = join_path(manifest_dir, "src");
    let src_package = join_path(src.as_str(), import_name);
    let src_init = join_path(src_package.as_str(), "__init__.py");
    let flat_package = join_path(manifest_dir, import_name);
    let flat_init = join_path(flat_package.as_str(), "__init__.py");
    let mut r = Vec::new();
    r.push(CandidateLayout { search_dir: src, package_dir: src_package, init_file: src_init, init_exists: false });
    r.push(
        CandidateLayout {
            search_dir: String::from_str(manifest_dir),
            package_dir: flat_package,
            init_file: flat_init,
            init_exists: false,
        },
    );
    r
}

/// The first layout whose `__init__.py` exists.
pub open spec fn first_present(layouts: Seq<CandidateLayout>) -> Option<int>
    decreases layouts.len(),
{
    if layouts.len() == 0 {
        None
    } else if layouts[0].init_exists {
        Some(0)
    } else {
        match first_present(layouts.drop_first()) {
            Some(k) => Some(k + 1),
            None => None,
        }
    }
}

/// A discovered package with one search path and one root.
pub open spec fn single_root_package(
    package: Seq<char>,
    search: Seq<char>,
    root: Seq<char>,
    manifest: Seq<char>,
) -> DiscoveredPackageView {
    DiscoveredPackageView { package, search: seq![search], roots: seq![root], manifest_path: manifest }
}

/// What a package found in `search_dir` at `package_dir` comes to: its paths made relative to
/// `repo`, or the first of them (search directory, package directory, manifest) that lies outside.
pub open spec fn package_at_spec(
    repo: Seq<char>,
    manifest_path: Seq<char>,
    package: Seq<char>,
    search_dir: Seq<char>,
    package_dir: Seq<char>,
) -> Result<DiscoveredPackageView, Seq<char>> {
    match strip_prefix_spec(repo, search_dir) {
        None => Err(search_dir),
        Some(search) => match strip_prefix_spec(repo, package_dir) {
            None => Err(package_dir),
            Some(root) => match strip_prefix_spec(repo, manifest_path) {
                None => Err(manifest_path),
                Some(manifest) => Ok(single_root_package(package, search, root, manifest)),
            },
        },
    }
}

fn package_at(
    repo: &str,
    manifest_path: &str,
    package: &str,
    search_dir: &str,
    package_dir: &str,
) -> (r: Result<DiscoveredPackage, DiscoverError>)
    ensures
        match package_at_spec(repo@, manifest_path@, package@, search_dir@, package_dir@) {
            Ok(v) => r matches Ok(p) && p@ == v,
            Err(path) => r matches Err(e) && is_outside_error(e, path, repo@),
        },
{
    let search = match repo_relative(repo, search_dir) {
        Ok(s) => s,
        Err(e) => return Err(e),
    };
    let root = match repo_relative(repo, package_dir) {
        Ok(s) => s,
        Err(e) => return Err(e),
    };
    let manifest = match repo_relative(repo, manifest_path) {
        Ok(s) => s,
        Err(e) => return Err(e),
    };
    let mut searches = Vec::new();
    searches.push(search);
    let mut roots = Vec::new();
    roots.push(root);
    let r = DiscoveredPackage {
        package: String::from_str(package),
        search: searches,
        roots,
        manifest_path: manifest,
    };
    assert(r@.search =~= seq![r.search@[0]@]);
    assert(r@.roots =~= seq![r.roots@[0]@]);
    Ok(r)
}

/// The package `import_name`, from the first layout whose `__init__.py` exists; none where no
/// layout has one.
pub fn resolve_candidate(
    repo: &str,
    manifest_path: &str,
    import_name: &str,
    layouts: &Vec<CandidateLayout>,
) -> (r: Result<Option<DiscoveredPackage>, DiscoverError>)
    ensures
        match first_present(layouts@) {
            None => r matches Ok(None),
            Some(k) => match package_at_spec(
                repo@,
                manifest_path@,
                import_name@,
                layouts@[k].search_dir@,
                layouts@[k].package_dir@,
            ) {
                Ok(v) => r matches Ok(Some(p)) && p@ == v,
                Err(path) => r matches Err(e) && is_outside_error(e, path, repo@),
            },
        },
{
    let n = layouts.len();
    assert(layouts@.skip(0) =~= layouts@);
    for i in 0..n
        invariant
            n == layouts@.len(),
            first_present(layouts@) == match first_present(layouts@.skip(i as int)) {
                Some(k) => Some(k + i),
                None => None,
            },
    {
        proof {
            assert(layouts@.skip(i as int).drop_first() =~= layouts@.skip(i + 1));
            assert(layouts@.skip(i as int)[0] == layouts@[i as int]);
        }
        if layouts[i].init_exists {
            return match package_at(
                repo,
                manifest_path,
                import_name,
                layouts[i].search_dir.as_str(),
                layouts[i].package_dir.as_str(),
            ) {
                Ok(p) => Ok(Some(p)),
                Err(e) => Err(e),
            };
        }
    }
    assert(layouts@.skip(n as int) =~= Seq::<CandidateLayout>::empty());
    Ok(None)
}

/// An entry of a directory that discovery looks into.
#[derive(Debug, Clone, PartialEq, Eq)]
pub struct DirEntryInfo {
    pub name: String,
    pub path: String,
    pub is_dir: bool,
    pub has_init: bool,
}

/// A directory that discovery looks into, with its entries.
#[derive(Debug, Clone, PartialEq, Eq)]
pub struct DirListing {
    pub search_dir: String,
    pub entries: Vec<DirEntryInfo>,
}

/// The directories in which a manifest in `manifest_dir` may keep its only package: `src/`, then
/// the manifest's own directory.
pub fn layout_search_dirs(manifest_dir: &str) -> (r: Vec<String>)
    ensures
        string_views(r@) == seq![join_path_spec(manifest_dir@, "src"@), manifest_dir@],
{
    let mut r = Vec::new();
    r.push(join_path(manifest_dir, "src"));
    r.push(String::from_str(manifest_dir));
    assert(string_views(r@) =~= seq![join_path_spec(manifest_dir@, "src"@), manifest_dir@]);
    r
}

/// A directory entry that looks like a package: a directory with a likely package name and an
/// `__init__.py`.
pub open spec fn entry_qualifies(entry: DirEntryInfo) -> bool {
    entry.is_dir && likely_package_name(entry.name@) && entry.has_init
}

/// The candidates (name, search path, root) among `entries`, in order, or the first entry path
/// that lies outside `repo`.
pub open spec fn entry_candidates(
    repo: Seq<char>,
    search: Seq<char>,
    entries: Seq<DirEntryInfo>,
) -> Result<Seq<(Seq<char>, Seq<char>, Seq<char>)>, Seq<char>>
    decreases entries.len(),
{
    if entries.len() == 0 {
        Ok(Seq::empty())
    } else {
        match entry_candidates(repo, search, entries.drop_last()) {
            Err(p) => Err(p),
            Ok(done) => {
                let e = entries.last();
                if !entry_qualifies(e) {
                    Ok(done)
                } else {
                    match strip_prefix_spec(repo, e.path@) {
                        None => Err(e.path@),
                        Some(root) => Ok(done.push((e.name@, search, root))),
                    }
                }
            },
        }
    }
}

/// The candidates of all listings, in order, or the first path that lies outside `repo`.
pub open spec fn listing_candidates(
    repo: Seq<char>,
    listings: Seq<DirListing>,
) -> Result<Seq<(Seq<char>, Seq<char>, Seq<char>)>, Seq<char>>
    decreases listings.len(),
{
    if listings.len() == 0 {
        Ok(Seq::empty())
    } else {
        match listing_candidates(repo, listings.drop_last()) {
            Err(p) => Err(p),
            Ok(done) => {
                let l = listings.last();
                match strip_prefix_spec(repo, l.search_dir@) {
                    None => Err(l.search_dir@),
                    Some(search) => match entry_candidates(repo, search, l.entries@) {
                        Err(p) => Err(p),
                        Ok(found) => Ok(done + found),
                    },
                }
            },
        }
    }
}

/// The candidate, where all candidates are one and the same.
pub open spec fn single_candidate(candidates: Seq<(Seq<char>, Seq<char>, Seq<char>)>) -> Option<
    (Seq<char>, Seq<char>, Seq<char>),
> {
    if candidates.len() > 0 && forall|i: int| 0 <= i < candidates.len() ==> #[trigger] candidates[i]
        == candidates[0] {
        Some(candidates[0])
    } else {
        None
    }
}

pub open spec fn triple_views(v: Seq<(String, String, String)>) -> Seq<(Seq<char>, Seq<char>, Seq<char>)> {
    v.map_values(|t: (String, String, String)| (t.0@, t.1@, t.2@))
}

/// The only candidate, where all candidates are one and the same.
pub fn only_candidate(candidates: Vec<(String, String, String)>) -> (r: Option<(String, String, String)>)
    ensures
        match single_candidate(triple_views(candidates@)) {
            None => r is None,
            Some(t) => r matches Some(x) && (x.0@, x.1@, x.2@) == t,
        },
{
    let ghost views = triple_views(candidates@);
    let n = candidates.len();
    if n == 0 {
        return None;
    }
    for i in 1..n
        invariant
            n == candidates@.len(),
            n > 0,
            views == triple_views(candidates@),
            forall|k: int| 0 <= k < i ==> #[trigger] views[k] == views[0],
    {
        let same = text_equal(candidates[i].0.as_str(), candidates[0].0.as_str()) && text_equal(
            candidates[i].1.as_str(),
            candidates[0].1.as_str(),
        ) && text_equal(candidates[i].2.as_str(), candidates[0].2.as_str());
        if !same {
            assert(views[i as int] != views[0]);
            return None;
        }
    }
    let mut candidates = candidates;
    let first = candidates.swap_remove(0);
    Some(first)
}

/// The only package that the listings hold, if they hold exactly one.
pub fn infer_single_layout_candidate(
    repo: &str,
    manifest_path: &str,
    listings: &Vec<DirListing>,
) -> (r: Result<Option<DiscoveredPackage>, DiscoverError>)
    ensures
        match listing_candidates(repo@, listings@) {
            Err(path) => r matches Err(e) && is_outside_error(e, path, repo@),
            Ok(candidates) => match single_candidate(candidates) {
                None => r matches Ok(None),
                Some(t) => match strip_prefix_spec(repo@, manifest_path@) {
                    None => r matches Err(e) && is_outside_error(e, manifest_path@, repo@),
                    Some(m) => r matches Ok(Some(p)) && p@ == single_root_package(t.0, t.1, t.2, m),
                },
            },
        },
{
    let mut candidates: Vec<(String, String, String)> = Vec::new();
    let n = listings.len();
    assert(listings@.take(0) =~= Seq::<DirListing>::empty());
    assert(triple_views(candidates@) =~= Seq::<(Seq<char>, Seq<char>, Seq<char>)>::empty());
    for i in 0..n
        invariant
            n == listings@.len(),
            listing_candidates(repo@, listings@.take(i as int)) == Ok::<
                Seq<(Seq<char>, Seq<char>, Seq<char>)>,
                Seq<char>,
            >(triple_views(candidates@)),
    {
        let listing = &listings[i];
        proof {
            assert(listings@.take(i + 1).drop_last() =~= listings@.take(i as int));
            assert(listings@.take(i + 1).last() == listings@[i as int]);
        }
        let search = match repo_relative(repo, listing.search_dir.as_str()) {
            Ok(s) => s,
            Err(e) => {
                proof {
                    lemma_listing_error_stays(repo@, listings@, i + 1);
                }
                return Err(e);
            },
        };
        let ghost done = triple_views(candidates@);
        let m = listing.entries.len();
        assert(listing.entries@.take(0) =~= Seq::<DirEntryInfo>::empty());
        assert(done + Seq::<(Seq<char>, Seq<char>, Seq<char>)>::empty() =~= done);
        for j in 0..m
            invariant
                m == listing.entries@.len(),
                i < n,
                n == listings@.len(),
                *listing == listings@[i as int],
                listings@.take(i + 1).drop_last() == listings@.take(i as int),
                listings@.take(i + 1).last() == listings@[i as int],
                listing_candidates(repo@, listings@.take(i as int)) == Ok::<
                    Seq<(Seq<char>, Seq<char>, Seq<char>)>,
                    Seq<char>,
                >(done),
                strip_prefix_spec(repo@, listing.search_dir@) == Some(search@),
                entry_candidates(repo@, search@, listing.entries@.take(j as int)) matches Ok(found)
                    && triple_views(candidates@) == done + found,
        {
            let entry = &listing.entries[j];
            let ghost found = triple_views(candidates@);
            proof {
                assert(listing.entries@.take(j + 1).drop_last() =~= listing.entries@.take(j as int));
                assert(listing.entries@.take(j + 1).last() == listing.entries@[j as int]);
            }
            if entry.is_dir && is_likely_package_name(entry.name.as_str()) && entry.has_init {
                let root = match repo_relative(repo, entry.path.as_str()) {
                    Ok(s) => s,
                    Err(e) => {
                        proof {
                            lemma_entry_error_stays(repo@, search@, listing.entries@, j + 1);
                            lemma_listing_error_stays(repo@, listings@, i + 1);
                        }
                        return Err(e);
                    },
                };
                candidates.push((entry.name.clone(), search.clone(), root));
                proof {
                    let t = candidates@[candidates@.len() - 1];
                    assert(triple_views(candidates@) =~= found.push((t.0@, t.1@, t.2@)));
                }
            }
        }
        assert(listing.entries@.take(m as int) =~= listing.entries@);
    }
    assert(listings@.take(n as int) =~= listings@);
    match only_candidate(candidates) {
        None => Ok(None),
        Some((package, search, root)) => {
            let manifest = match repo_relative(repo, manifest_path) {
                Ok(s) => s,
                Err(e) => return Err(e),
            };
            let mut searches = Vec::new();
            searches.push(search);
            let mut roots = Vec::new();
            roots.push(root);
            let r = DiscoveredPackage { package, search: searches, roots, manifest_path: manifest };
            assert(r@.search =~= seq![r.search@[0]@]);
            assert(r@.roots =~= seq![r.roots@[0]@]);
            Ok(Some(r))
        },
    }
}

proof fn lemma_entry_error_stays(repo: Seq<char>, search: Seq<char>, entries: Seq<DirEntryInfo>, k: int)
    requires
        0 <= k <= entries.len(),
        entry_candidates(repo, search, entries.take(k)) is Err,
    ensures
        entry_candidates(repo, search, entries) == entry_candidates(repo, search, entries.take(k)),
    decreases entries.len() - k,
{
    if k < entries.len() {
        assert(entries.take(k + 1).drop_last() =~= entries.take(k));
        lemma_entry_error_stays(repo, search, entries, k + 1);
    } else {
        assert(entries.take(k) =~= entries);
    }
}

proof fn lemma_listing_error_stays(repo: Seq<char>, listings: Seq<DirListing>, k: int)
    requires
        0 <= k <= listings.len(),
        listing_candidates(repo, listings.take(k)) is Err,
    ensures
        listing_candidates(repo, listings) == listing_candidates(repo, listings.take(k)),
    decreases listings.len() - k,
{
    if k < listings.len() {
        assert(listings.take(k + 1).drop_last() =~= listings.take(k));
        lemma_listing_error_stays(repo, listings, k + 1);
    } else {
        assert(listings.take(k) =~= listings);
    }
}


/// An import name of a manifest with the layouts in which its package may stand.
#[derive(Debug, Clone, PartialEq, Eq)]
pub struct NameLayouts {
    pub import_name: String,
    pub layouts: Vec<CandidateLayout>,
}

/// The packages that the import names resolve to, in order, each from the first layout whose
/// `__init__.py` exists; or the first path that lies outside `repo`.
pub open spec fn resolved_names_spec(
    repo: Seq<char>,
    manifest_path: Seq<char>,
    names: Seq<NameLayouts>,
) -> Result<Seq<DiscoveredPackageView>, Seq<char>>
    decreases names.len(),
{
    if names.len() == 0 {
        Ok(Seq::empty())
    } else {
        match resolved_names_spec(repo, manifest_path, names.drop_last()) {
            Err(p) => Err(p),
            Ok(done) => {
                let n = names.last();
                match first_present(n.layouts@) {
                    None => Ok(done),
                    Some(k) => match package_at_spec(
                        repo,
                        manifest_path,
                        n.import_name@,
                        n.layouts@[k].search_dir@,
                        n.layouts@[k].package_dir@,
                    ) {
                        Err(p) => Err(p),
                        Ok(v) => Ok(done.push(v)),
                    },
                }
            },
        }
    }
}

proof fn lemma_resolved_error_stays(repo: Seq<char>, manifest_path: Seq<char>, names: Seq<NameLayouts>, k: int)
    requires
        0 <= k <= names.len(),
        resolved_names_spec(repo, manifest_path, names.take(k)) is Err,
    ensures
        resolved_names_spec(repo, manifest_path, names) == resolved_names_spec(repo, manifest_path, names.take(k)),
    decreases names.len() - k,
{
    if k < names.len() {
        assert(names.take(k + 1).drop_last() =~= names.take(k));
        lemma_resolved_error_stays(repo, manifest_path, names, k + 1);
    } else {
        assert(names.take(k) =~= names);
    }
}

/// The packages that the import names of one manifest resolve to.
pub fn resolve_import_names(
    repo: &str,
    manifest_path: &str,
    names: &Vec<NameLayouts>,
) -> (r: Result<Vec<DiscoveredPackage>, DiscoverError>)
    ensures
        match resolved_names_spec(repo@, manifest_path@, names@) {
            Ok(v) => r matches Ok(ps) && discovered_views(ps@) == v,
            Err(path) => r matches Err(e) && is_outside_error(e, path, repo@),
        },
{
    let mut packages: Vec<DiscoveredPackage> = Vec::new();
    let n = names.len();
    assert(names@.take(0) =~= Seq::<NameLayouts>::empty());
    assert(discovered_views(packages@) =~= Seq::<DiscoveredPackageView>::empty());
    for i in 0..n
        invariant
            n == names@.len(),
            resolved_names_spec(repo@, manifest_path@, names@.take(i as int)) == Ok::<
                Seq<DiscoveredPackageView>,
                Seq<char>,
            >(discovered_views(packages@)),
    {
        proof {
            assert(names@.take(i + 1).drop_last() =~= names@.take(i as int));
            assert(names@.take(i + 1).last() == names@[i as int]);
        }
        let entry = &names[i];
        match resolve_candidate(repo, manifest_path, entry.import_name.as_str(), &entry.layouts) {
            Ok(Some(p)) => {
                let ghost before = discovered_views(packages@);
                let ghost pv = p@;
                packages.push(p);
                assert(discovered_views(packages@) =~= before.push(pv));
            },
            Ok(None) => {},
            Err(e) => {
                proof {
                    lemma_resolved_error_stays(repo@, manifest_path@, names@, i + 1);
                }
                return Err(e);
            },
        }
    }
    assert(names@.take(n as int) =~= names@);
    Ok(packages)
}

/// Whether a manifest's directories must be listed for the fallback: none of its import names
/// resolved to a package.
pub fn needs_layout_listing(resolved: &Vec<DiscoveredPackage>) -> (r: bool)
    ensures
        r == (resolved@.len() == 0),
{
    resolved.len() == 0
}

/// What the fallback of a manifest yields: the only package that its listings hold, if they hold
/// exactly one, or the first path that lies outside `repo`.
pub open spec fn inferred_spec(
    repo: Seq<char>,
    manifest_path: Seq<char>,
    listings: Seq<DirListing>,
) -> Result<Option<DiscoveredPackageView>, Seq<char>> {
    match listing_candidates(repo, listings) {
        Err(path) => Err(path),
        Ok(candidates) => match single_candidate(candidates) {
            None => Ok(None),
            Some(t) => match strip_prefix_spec(repo, manifest_path) {
                None => Err(manifest_path),
                Some(m) => Ok(Some(single_root_package(t.0, t.1, t.2, m))),
            },
        },
    }
}

/// The packages of one manifest: those its import names resolved to; where none did, the only
/// package that the listings of its directories hold, if there is exactly one.
pub fn manifest_packages(
    repo: &str,
    manifest_path: &str,
    resolved: Vec<DiscoveredPackage>,
    listings: &Vec<DirListing>,
) -> (r: Result<Vec<DiscoveredPackage>, DiscoverError>)
    ensures
        resolved@.len() > 0 ==> (r matches Ok(v) && discovered_views(v@) == discovered_views(resolved@)),
        resolved@.len() == 0 ==> match inferred_spec(repo@, manifest_path@, listings@) {
            Err(path) => r matches Err(e) && is_outside_error(e, path, repo@),
            Ok(None) => r matches Ok(v) && v@.len() == 0,
            Ok(Some(p)) => r matches Ok(v) && discovered_views(v@) == seq![p],
        },
{
    if !needs_layout_listing(&resolved) {
        return Ok(resolved);
    }
    match infer_single_layout_candidate(repo, manifest_path, listings) {
        Err(e) => Err(e),
        Ok(None) => Ok(Vec::new()),
        Ok(Some(p)) => {
            let mut v = Vec::new();
            let ghost pv = p@;
            v.push(p);
            assert(discovered_views(v@) =~= seq![pv]);
            Ok(v)
        },
    }
}

/// Packages in the order of their names.
pub open spec fn package_name_order() -> spec_fn(DiscoveredPackageView, DiscoveredPackageView) -> bool {
    |a: DiscoveredPackageView, b: DiscoveredPackageView| seq_less(a.package, b.package)
}

/// Two lists of roots name the same paths, component by component.
pub open spec fn same_root_paths(a: Seq<Seq<char>>, b: Seq<Seq<char>>) -> bool {
    &&& a.len() == b.len()
    &&& forall|i: int| 0 <= i < a.len() ==> #[trigger] path_components(a[i]) == path_components(b[i])
}

/// Each package that repeats the name and roots of the package kept just before it is dropped.
pub open spec fn dedup_packages(packages: Seq<DiscoveredPackageView>) -> Seq<DiscoveredPackageView>
    decreases packages.len(),
{
    if packages.len() == 0 {
        Seq::empty()
    } else {
        let kept = dedup_packages(packages.drop_last());
        let p = packages.last();
        if kept.len() > 0 && kept.last().package == p.package && same_root_paths(kept.last().roots, p.roots) {
            kept
        } else {
            kept.push(p)
        }
    }
}

/// Ordering packages by name is a strict weak order.
proof fn lemma_package_name_order_strict_weak()
    ensures
        strict_weak_order(package_name_order()),
{
    let less = package_name_order();
    assert forall|a: DiscoveredPackageView, b: DiscoveredPackageView| #[trigger] less(a, b) implies !less(
        b,
        a,
    ) by {
        lemma_seq_less_asymmetric(a.package, b.package);
    }
    assert forall|a: DiscoveredPackageView, b: DiscoveredPackageView, c: DiscoveredPackageView|
        !#[trigger] less(a, b) && !#[trigger] less(b, c) implies !less(a, c) by {
        lemma_seq_less_total(a.package, b.package);
        lemma_seq_less_total(b.package, c.package);
        if seq_less(a.package, c.package) {
            if a.package == b.package {
                lemma_seq_less_asymmetric(a.package, c.package);
            } else if b.package == c.package {
            } else {
                lemma_seq_less_transitive(c.package, b.package, a.package);
                lemma_seq_less_asymmetric(a.package, c.package);
            }
        }
    }
}

/// Two packages where the second repeats the name and roots of the first.
pub open spec fn repeats(a: DiscoveredPackageView, b: DiscoveredPackageView) -> bool {
    a.package == b.package && same_root_paths(a.roots, b.roots)
}

proof fn lemma_dedup_packages(s: Seq<DiscoveredPackageView>)
    ensures
        forall|i: int| 0 <= i < dedup_packages(s).len() ==> exists|j: int|
            0 <= j < s.len() && s[j] == #[trigger] dedup_packages(s)[i],
        forall|i: int| 0 < i < dedup_packages(s).len() ==> !repeats(
            #[trigger] dedup_packages(s)[i - 1],
            dedup_packages(s)[i],
        ),
        sorted_by(s, package_name_order()) ==> sorted_by(dedup_packages(s), package_name_order()),
    decreases s.len(),
{
    if s.len() > 0 {
        let d = s.drop_last();
        let kept = dedup_packages(d);
        let p = s.last();
        lemma_dedup_packages(d);
        let r = dedup_packages(s);
        assert forall|i: int| 0 <= i < kept.len() implies exists|j: int|
            0 <= j < s.len() && s[j] == #[trigger] kept[i] by {
            let j = choose|j: int| 0 <= j < d.len() && d[j] == kept[i];
            assert(s[j] == d[j]);
        }
        if kept.len() > 0 && kept.last().package == p.package && same_root_paths(kept.last().roots, p.roots) {
            assert(r == kept);
        } else {
            assert(r == kept.push(p));
            assert forall|i: int| 0 <= i < r.len() implies exists|j: int|
                0 <= j < s.len() && s[j] == #[trigger] r[i] by {
                if i < kept.len() {
                    assert(r[i] == kept[i]);
                } else {
                    assert(s[s.len() - 1] == r[i]);
                }
            }
            assert forall|i: int| 0 < i < r.len() implies !repeats(#[trigger] r[i - 1], r[i]) by {
                if i < kept.len() {
                    assert(r[i - 1] == kept[i - 1]);
                    assert(r[i] == kept[i]);
                } else {
                    assert(r[i - 1] == kept.last());
                }
            }
            if sorted_by(s, package_name_order()) {
                assert(sorted_by(d, package_name_order())) by {
                    assert forall|a: int, b: int| 0 <= a < b < d.len() implies !(package_name_order())(
                        #[trigger] d[b],
                        #[trigger] d[a],
                    ) by {
                        assert(d[a] == s[a] && d[b] == s[b]);
                    }
                }
                assert forall|a: int, b: int| 0 <= a < b < r.len() implies !(package_name_order())(
                    #[trigger] r[b],
                    #[trigger] r[a],
                ) by {
                    if b < kept.len() {
                        assert(r[a] == kept[a] && r[b] == kept[b]);
                    } else {
                        let j = choose|j: int| 0 <= j < d.len() && d[j] == kept[a];
                        assert(r[a] == kept[a]);
                        assert(s[j] == d[j]);
                        assert(r[b] == s[s.len() - 1]);
                    }
                }
            }
        }
    }
}

/// Discovery's result is sorted by package name, no package in it repeats the name and roots
/// of the one before it, and each package in it was discovered.
pub proof fn law_discovered_packages_sorted_without_repeats(packages: Seq<DiscoveredPackageView>)
    ensures
        sorted_by(dedup_packages(sort_by(packages, package_name_order())), package_name_order()),
        forall|i: int|
            0 < i < dedup_packages(sort_by(packages, package_name_order())).len() ==> !repeats(
                #[trigger] dedup_packages(sort_by(packages, package_name_order()))[i - 1],
                dedup_packages(sort_by(packages, package_name_order()))[i],
            ),
        forall|i: int|
            0 <= i < dedup_packages(sort_by(packages, package_name_order())).len() ==> packages.contains(
                #[trigger] dedup_packages(sort_by(packages, package_name_order()))[i],
            ),
{
    let sorted = sort_by(packages, package_name_order());
    let r = dedup_packages(sorted);
    lemma_package_name_order_strict_weak();
    law_sort_by_is_sorted(packages, package_name_order());
    law_sort_by_is_permutation(packages, package_name_order());
    lemma_dedup_packages(sorted);
    assert forall|i: int| 0 <= i < r.len() implies packages.contains(#[trigger] r[i]) by {
        let j = choose|j: int| 0 <= j < sorted.len() && sorted[j] == r[i];
        assert(sorted.to_multiset().count(sorted[j]) > 0) by {
            broadcast use vstd::seq_lib::group_to_multiset_ensures;
            assert(sorted.contains(sorted[j]));
        }
        assert(packages.to_multiset().count(r[i]) > 0);
        broadcast use vstd::seq_lib::group_to_multiset_ensures;
        assert(packages.contains(r[i]));
    }
}

/// Whether two lists of roots name the same paths.
fn roots_equal(a: &Vec<String>, b: &Vec<String>) -> (r: bool)
    ensures
        r == same_root_paths(string_views(a@), string_views(b@)),
{
    if a.len() != b.len() {
        return false;
    }
    let n = a.len();
    for i in 0..n
        invariant
            n == a@.len(),
            n == b@.len(),
            forall|k: int| 0 <= k < i ==> #[trigger] path_components(string_views(a@)[k]) == path_components(
                string_views(b@)[k],
            ),
    {
        let x = components(a[i].as_str());
        let y = components(b[i].as_str());
        let same = x.len() == y.len() && components_prefix(&x, &y);
        proof {
            if x.len() == y.len() {
                assert(string_views(y@).take(string_views(x@).len() as int) =~= string_views(y@));
            }
            assert(string_views(a@)[i as int] == a@[i as int]@);
            assert(string_views(b@)[i as int] == b@[i as int]@);
        }
        if !same {
            return false;
        }
    }
    true
}

/// Discovered packages sorted by name (stably), with repeats of the same name and roots dropped.
pub fn finalize_discovered(packages: Vec<DiscoveredPackage>) -> (r: Vec<DiscoveredPackage>)
    ensures
        discovered_views(r@) == dedup_packages(sort_by(discovered_views(packages@), package_name_order())),
{
    let ghost all = discovered_views(packages@);
    let mut sorted: Vec<DiscoveredPackage> = Vec::new();
    let n = packages.len();
    assert(all.take(0) =~= Seq::<DiscoveredPackageView>::empty());
    assert(discovered_views(sorted@) =~= Seq::<DiscoveredPackageView>::empty());
    for i in 0..n
        invariant
            n == packages@.len(),
            all == discovered_views(packages@),
            discovered_views(sorted@) == sort_by(all.take(i as int), package_name_order()),
    {
        let p = packages[i].copy();
        let ghost s = discovered_views(sorted@);
        let mut k = sorted.len();
        while k > 0 && text_order(p.package.as_str(), sorted[k - 1].package.as_str()) == TextOrder::Less
            invariant
                k <= sorted@.len(),
                s == discovered_views(sorted@),
                forall|j: int| k <= j < s.len() ==> (package_name_order())(p@, #[trigger] s[j]),
            decreases k,
        {
            k = k - 1;
        }
        proof {
            if k > 0 {
                lemma_seq_less_irreflexive(p@.package);
                assert(s[k - 1] == sorted@[k - 1]@);
                assert(!(package_name_order())(p@, s[k - 1]));
            }
            lemma_insert_by_position(s, p@, package_name_order(), k as int);
            assert(all.take(i + 1).drop_last() =~= all.take(i as int));
            assert(all.take(i + 1).last() == p@);
        }
        sorted.insert(k, p);
        assert(discovered_views(sorted@) =~= s.take(k as int).push(p@) + s.skip(k as int));
    }
    assert(all.take(n as int) =~= all);
    let ghost ordered = discovered_views(sorted@);
    let mut r: Vec<DiscoveredPackage> = Vec::new();
    let m = sorted.len();
    assert(ordered.take(0) =~= Seq::<DiscoveredPackageView>::empty());
    assert(discovered_views(r@) =~= Seq::<DiscoveredPackageView>::empty());
    for i in 0..m
        invariant
            m == sorted@.len(),
            ordered == discovered_views(sorted@),
            discovered_views(r@) == dedup_packages(ordered.take(i as int)),
    {
        let ghost kept = discovered_views(r@);
        proof {
            assert(ordered.take(i + 1).drop_last() =~= ordered.take(i as int));
            assert(ordered.take(i + 1).last() == sorted@[i as int]@);
        }
        let len = r.len();
        let repeat = len > 0 && text_equal(r[len - 1].package.as_str(), sorted[i].package.as_str())
            && roots_equal(&r[len - 1].roots, &sorted[i].roots);
        if !repeat {
            r.push(sorted[i].copy());
            assert(discovered_views(r@) =~= kept.push(sorted@[i as int]@));
        }
    }
    assert(ordered.take(m as int) =~= ordered);
    r
}

/// A line without the `\r` of a `\r\n` ending.
pub open spec fn strip_carriage_return(line: Seq<char>) -> Seq<char> {
    if line.len() > 0 && line.last() == '\r' {
        line.drop_last()
    } else {
        line
    }
}

/// The lines of a text, as `str::lines` yields them: split at `\n`, a `\r` before the `\n`
/// dropped, and no empty line after a final `\n`.
pub open spec fn text_lines(s: Seq<char>) -> Seq<Seq<char>> {
    let pieces = split_on(s, '\n');
    let ended = pieces.drop_last().map_values(|p: Seq<char>| strip_carriage_return(p));
    if pieces.last().len() == 0 {
        ended
    } else {
        ended.push(pieces.last())
    }
}

/// The lines that hold more than whitespace, in order.
pub open spec fn nonblank_lines(lines: Seq<Seq<char>>) -> Seq<Seq<char>>
    decreases lines.len(),
{
    if lines.len() == 0 {
        Seq::empty()
    } else {
        nonblank_lines(lines.drop_last()) + if trim(lines.last()).len() > 0 {
            seq![lines.last()]
        } else {
            Seq::empty()
        }
    }
}

/// The changed files that `git diff --name-only` printed: its lines that hold more than whitespace.
pub fn parse_changed_files(output: &str) -> (r: Vec<String>)
    ensures
        string_views(r@) == nonblank_lines(text_lines(output@)),
{
    let chars = chars_of(output);
    let n = chars.len();
    let mut r: Vec<String> = Vec::new();
    let mut current = String::new();
    assert(chars@.take(0) =~= Seq::<char>::empty());
    assert(split_on(Seq::<char>::empty(), '\n').drop_last().map_values(|p: Seq<char>| strip_carriage_return(p))
        =~= Seq::<Seq<char>>::empty());
    assert(string_views(r@) =~= Seq::<Seq<char>>::empty());
    for i in 0..n
        invariant
            n == chars@.len(),
            chars@ == output@,
            split_on(chars@.take(i as int), '\n').len() >= 1,
            current@ == split_on(chars@.take(i as int), '\n').last(),
            string_views(r@) == nonblank_lines(
                split_on(chars@.take(i as int), '\n').drop_last().map_values(
                    |p: Seq<char>| strip_carriage_return(p),
                ),
            ),
    {
        let c = chars[i];
        let ghost prefix = chars@.take(i as int);
        let ghost segs = split_on(prefix, '\n');
        proof {
            assert(chars@.take(i + 1).drop_last() =~= prefix);
            assert(chars@.take(i + 1).last() == c);
        }
        if c == '\n' {
            let ghost before = string_views(r@);
            let line_chars = chars_of(current.as_str());
            let len = line_chars.len();
            let line = if len > 0 && line_chars[len - 1] == '\r' {
                string_from_chars(&line_chars, len - 1)
            } else {
                string_from_chars(&line_chars, len)
            };
            assert(line_chars@.take(len as int) =~= line_chars@);
            assert(line@ == strip_carriage_return(segs.last()));
            let trimmed = trim_text(line.as_str());
            let ghost lv = line@;
            if trimmed.as_str().unicode_len() > 0 {
                r.push(line);
                assert(string_views(r@) =~= before.push(lv));
            }
            current = String::new();
            proof {
                let segs2 = split_on(chars@.take(i + 1), '\n');
                let f = |p: Seq<char>| strip_carriage_return(p);
                assert(segs2 == segs.push(Seq::empty()));
                assert(segs2.drop_last() =~= segs);
                let x = segs.drop_last().map_values(f);
                assert(segs.map_values(f) =~= x.push(lv));
                assert(x.push(lv).drop_last() =~= x);
                assert(nonblank_lines(x.push(lv)) == nonblank_lines(x) + if trim(lv).len() > 0 {
                    seq![lv]
                } else {
                    Seq::empty()
                });
                if trim(lv).len() > 0 {
                    assert(before + seq![lv] =~= before.push(lv));
                } else {
                    assert(before + Seq::<Seq<char>>::empty() =~= before);
                }
            }
        } else {
            push_char(&mut current, c);
            proof {
                let segs2 = split_on(chars@.take(i + 1), '\n');
                assert(segs2 == segs.update(segs.len() - 1, segs.last().push(c)));
                assert(segs2.drop_last() =~= segs.drop_last());
            }
        }
    }
    proof {
        assert(chars@.take(n as int) =~= chars@);
    }
    let ghost before = string_views(r@);
    let trimmed = trim_text(current.as_str());
    if current.as_str().unicode_len() > 0 && trimmed.as_str().unicode_len() > 0 {
        r.push(current);
    }
    proof {
        let pieces = split_on(output@, '\n');
        let ended = pieces.drop_last().map_values(|p: Seq<char>| strip_carriage_return(p));
        if pieces.last().len() > 0 {
            assert(ended.push(pieces.last()).drop_last() =~= ended);
        }
    }
    r
}

} // verus!
