use vstd::prelude::*;

use crate::model::Diagnostic;
use crate::text::{concat2, opt_str, opt_string_copy, string_views, trim, trim_text};

verus! {

/// The kind of a public Python object in an API snapshot.
#[derive(Debug, Clone, Copy, PartialEq, Eq, Structural)]
pub enum SymbolKind {
    Module,
    Class,
    Function,
    Method,
    Attribute,
    Alias,
}

/// One parameter of a function, method or alias in an API snapshot.
#[derive(Debug, Clone, PartialEq, Eq)]
pub struct ParameterSnapshot {
    pub name: String,
    pub kind: String,
    pub required: bool,
}

/// One public object in an API snapshot.
#[derive(Debug, Clone, PartialEq, Eq)]
pub struct SymbolSnapshot {
    pub path: String,
    pub parent_path: String,
    pub kind: SymbolKind,
    pub parameters: Vec<ParameterSnapshot>,
}

/// A breaking change that the backend found between the two revisions.
#[derive(Debug, Clone, PartialEq, Eq)]
pub struct BreakingChange {
    pub kind: String,
    pub symbol: String,
    pub file: Option<String>,
    pub line: Option<usize>,
    pub message: String,
    pub backend: String,
}

pub ghost struct BreakingChangeView {
    pub kind: Seq<char>,
    pub symbol: Seq<char>,
    pub file: Option<Seq<char>>,
    pub line: Option<usize>,
    pub message: Seq<char>,
    pub backend: Seq<char>,
}

impl View for BreakingChange {
    type V = BreakingChangeView;

    open spec fn view(&self) -> BreakingChangeView {
        BreakingChangeView {
            kind: self.kind@,
            symbol: self.symbol@,
            file: opt_str(self.file),
            line: self.line,
            message: self.message@,
            backend: self.backend@,
        }
    }
}

impl BreakingChange {
    /// A field-by-field copy.
    pub fn copy(&self) -> (r: BreakingChange)
        ensures
            r@ == self@,
    {
        BreakingChange {
            kind: self.kind.clone(),
            symbol: self.symbol.clone(),
            file: opt_string_copy(&self.file),
            line: self.line,
            message: self.message.clone(),
            backend: self.backend.clone(),
        }
    }
}

/// What the backend reports for one package: its breaking changes, the public API of both
/// revisions, and its diagnostics.
#[derive(Debug, Clone, PartialEq, Eq)]
pub struct PythonBackendResult {
    pub breaking_changes: Vec<BreakingChange>,
    pub old_snapshot: Vec<SymbolSnapshot>,
    pub new_snapshot: Vec<SymbolSnapshot>,
    pub diagnostics: Vec<Diagnostic>,
}

} // verus!

verus! {

/// Why the Python backend could not produce a result; each variant carries the text of the
/// underlying failure.
#[derive(Debug, Clone, PartialEq, Eq)]
pub enum BackendError {
    BridgeTemp(String),
    BridgeWrite(String),
    Command(String),
    Failed(String),
    InvalidJson(String),
}

pub open spec fn backend_error_text(e: BackendError) -> Seq<char> {
    match e {
        BackendError::BridgeTemp(d) => "failed to create temporary Griffe bridge script: "@ + d@,
        BackendError::BridgeWrite(d) => "failed to write temporary Griffe bridge script: "@ + d@,
        BackendError::Command(d) => "failed to run Python backend: "@ + d@,
        BackendError::Failed(d) => "Python backend failed: "@ + d@,
        BackendError::InvalidJson(d) => "Python backend returned invalid JSON: "@ + d@,
    }
}

impl BackendError {
    /// The message that explains the failure.
    pub fn message(&self) -> (r: String)
        ensures
            r@ == backend_error_text(*self),
    {
        match self {
            BackendError::BridgeTemp(d) => concat2("failed to create temporary Griffe bridge script: ", d.as_str()),
            BackendError::BridgeWrite(d) => concat2("failed to write temporary Griffe bridge script: ", d.as_str()),
            BackendError::Command(d) => concat2("failed to run Python backend: ", d.as_str()),
            BackendError::Failed(d) => concat2("Python backend failed: ", d.as_str()),
            BackendError::InvalidJson(d) => concat2("Python backend returned invalid JSON: ", d.as_str()),
        }
    }
}

/// What the Python backend is run on.
#[derive(Debug, Clone, PartialEq, Eq)]
pub struct PythonBackendOptions {
    pub package: String,
    pub search_paths: Vec<String>,
    pub base: String,
    pub head: String,
    pub repo: String,
    pub python: Option<String>,
    pub strict: bool,
}

/// The search paths handed to the backend: `.` where none is given.
pub open spec fn normalized_search_spec(search_paths: Seq<Seq<char>>) -> Seq<Seq<char>> {
    if search_paths.len() == 0 {
        seq!["."@]
    } else {
        search_paths
    }
}

/// The search paths handed to the backend.
pub fn normalized_search_paths(search_paths: &Vec<String>) -> (r: Vec<String>)
    ensures
        string_views(r@) == normalized_search_spec(string_views(search_paths@)),
{
    if search_paths.len() == 0 {
        let mut r = Vec::new();
        r.push(String::from_str("."));
        assert(string_views(r@) =~= seq!["."@]);
        r
    } else {
        search_paths.clone()
    }
}

/// The Python interpreter to run where none is configured: `python` on Windows, `python3`
/// elsewhere.
pub fn default_python_command(is_windows: bool) -> (r: String)
    ensures
        r@ == if is_windows { "python"@ } else { "python3"@ },
{
    if is_windows {
        String::from_str("python")
    } else {
        String::from_str("python3")
    }
}

/// The backend that a bridge change names where it names none.
pub fn default_griffe_backend() -> (r: String)
    ensures
        r@ == "griffe"@,
{
    String::from_str("griffe")
}

/// The Python interpreter to run: the one the options name, else the one the environment
/// names, else the platform default.
pub fn python_command(options: &PythonBackendOptions, from_environment: Option<String>, is_windows: bool) -> (r: String)
    ensures
        r@ == match options.python {
            Some(p) => p@,
            None => match from_environment {
                Some(e) => e@,
                None => if is_windows { "python"@ } else { "python3"@ },
            },
        },
{
    match &options.python {
        Some(p) => p.clone(),
        None => match from_environment {
            Some(e) => e,
            None => default_python_command(is_windows),
        },
    }
}

/// The arguments of the bridge process: the script, the package, both revisions, the
/// repository, and each search path after `--search`.
pub open spec fn bridge_arguments_spec(bridge_path: Seq<char>, options: PythonBackendOptions) -> Seq<Seq<char>> {
    seq![
        bridge_path,
        "--package"@,
        options.package@,
        "--base"@,
        options.base@,
        "--head"@,
        options.head@,
        "--repo"@,
        options.repo@,
    ] + search_arguments(normalized_search_spec(string_views(options.search_paths@)))
}

/// `--search` before each search path.
pub open spec fn search_arguments(paths: Seq<Seq<char>>) -> Seq<Seq<char>>
    decreases paths.len(),
{
    if paths.len() == 0 {
        Seq::empty()
    } else {
        search_arguments(paths.drop_last()) + seq!["--search"@, paths.last()]
    }
}

/// The arguments of the bridge process.
pub fn bridge_arguments(bridge_path: &str, options: &PythonBackendOptions) -> (r: Vec<String>)
    ensures
        string_views(r@) == bridge_arguments_spec(bridge_path@, *options),
{
    let mut r: Vec<String> = Vec::new();
    r.push(String::from_str(bridge_path));
    r.push(String::from_str("--package"));
    r.push(options.package.clone());
    r.push(String::from_str("--base"));
    r.push(options.base.clone());
    r.push(String::from_str("--head"));
    r.push(options.head.clone());
    r.push(String::from_str("--repo"));
    r.push(options.repo.clone());
    let ghost head = string_views(r@);
    assert(head =~= seq![
        bridge_path@,
        "--package"@,
        options.package@,
        "--base"@,
        options.base@,
        "--head"@,
        options.head@,
        "--repo"@,
        options.repo@,
    ]);
    let paths = normalized_search_paths(&options.search_paths);
    let ghost ps = string_views(paths@);
    let n = paths.len();
    assert(ps.take(0) =~= Seq::<Seq<char>>::empty());
    assert(head + Seq::<Seq<char>>::empty() =~= head);
    for i in 0..n
        invariant
            n == paths@.len(),
            ps == string_views(paths@),
            string_views(r@) == head + search_arguments(ps.take(i as int)),
    {
        let ghost before = string_views(r@);
        r.push(String::from_str("--search"));
        r.push(paths[i].clone());
        proof {
            assert(ps.take(i + 1).drop_last() =~= ps.take(i as int));
            assert(ps.take(i + 1).last() == paths@[i as int]@);
            assert(string_views(r@) =~= before + seq!["--search"@, paths@[i as int]@]);
        }
    }
    assert(ps.take(n as int) =~= ps);
    r
}

/// The message of a failed bridge run: its error output, trimmed, else its standard output,
/// trimmed, else the exit status; an output that is only whitespace counts as empty.
pub fn failure_message(stderr: &str, stdout: &str, status: &str) -> (r: String)
    ensures
        r@ == if trim(stderr@).len() > 0 {
            trim(stderr@)
        } else if trim(stdout@).len() > 0 {
            trim(stdout@)
        } else {
            "process exited with status "@ + status@
        },
{
    let err = trim_text(stderr);
    let out = trim_text(stdout);
    if err.as_str().unicode_len() > 0 {
        err
    } else if out.as_str().unicode_len() > 0 {
        out
    } else {
        concat2("process exited with status ", status)
    }
}

} // verus!
