use vstd::prelude::*;

use crate::backend::{
    backend_error_text, BackendError, BreakingChange, ParameterSnapshot, PythonBackendResult,
    SymbolKind, SymbolSnapshot,
};
use crate::discover::{
    changed_packages, discovered_views, package_has_changed, roots_changed, select_changed_packages,
    selected_packages_spec, DiscoveredPackage, DiscoveredPackageView,
};
use crate::sorting::{
    law_sort_by_is_permutation, law_sort_by_is_sorted, lemma_insert_by_position, sort_by, sorted_by,
    strict_weak_order,
};
use crate::config::{
    package_views, ApibumpConfig, ConfigFailOn, ConfigPackage, ConfigPackageView, IgnoreRule,
    SelectionMode,
};
use crate::model::{
    backend_error_change, change_views, count_severity, diagnostic_views, package_report_consistent,
    packages_changes, packages_suppressed, report_consistent, ApiChange, ApiChangeView, ApiReport,
    Diagnostic, DiagnosticView, PackageReport, Recommendation, Severity,
};
use crate::report::OutputFormat;
use crate::text::{
    chars_of, concat2, concat3, contains_text, insert_sorted_text, lemma_seq_less_asymmetric,
    lemma_seq_less_irreflexive, lemma_seq_less_total, lemma_seq_less_transitive, lemma_sorted_texts,
    opt_str, opt_string_copy, seq_less, sorted_texts, string_from_chars, string_views,
    strictly_sorted, text_equal, text_order, TextOrder,
};

verus! {

/// Two parameters agree in name, kind and whether they are required.
pub open spec fn same_parameter(a: ParameterSnapshot, b: ParameterSnapshot) -> bool {
    &&& a.name@ == b.name@
    &&& a.kind@ == b.kind@
    &&& a.required == b.required
}

/// Two parameter lists agree element by element.
pub open spec fn same_parameters(a: Seq<ParameterSnapshot>, b: Seq<ParameterSnapshot>) -> bool {
    &&& a.len() == b.len()
    &&& forall|i: int| 0 <= i < a.len() ==> #[trigger] same_parameter(a[i], b[i])
}

/// The position of the last parameter named `name`: a later parameter of the same name hides
/// earlier ones.
pub open spec fn last_named(ps: Seq<ParameterSnapshot>, name: Seq<char>) -> Option<int>
    decreases ps.len(),
{
    if ps.len() == 0 {
        None
    } else if ps.last().name@ == name {
        Some(ps.len() - 1)
    } else {
        last_named(ps.drop_last(), name)
    }
}

/// Some parameter of `ps` is named `name`.
pub open spec fn has_parameter_named(ps: Seq<ParameterSnapshot>, name: Seq<char>) -> bool {
    exists|i: int| 0 <= i < ps.len() && #[trigger] ps[i].name@ == name
}

/// An old parameter survives in `new`: a parameter of that name is there, with the same kind,
/// and it did not turn from optional into required.
pub open spec fn parameter_kept(p: ParameterSnapshot, new: Seq<ParameterSnapshot>) -> bool {
    match last_named(new, p.name@) {
        None => false,
        Some(j) => new[j].kind@ == p.kind@ && (p.required || !new[j].required),
    }
}

/// A required old parameter is optional in `new`.
pub open spec fn became_optional(p: ParameterSnapshot, new: Seq<ParameterSnapshot>) -> bool {
    match last_named(new, p.name@) {
        None => false,
        Some(j) => p.required && !new[j].required,
    }
}

/// The names of `old` are kept in place at the front of `new`, or `new` introduces no name that
/// `old` lacks.
pub open spec fn names_compatible(old: Seq<ParameterSnapshot>, new: Seq<ParameterSnapshot>) -> bool {
    &&& new.len() >= old.len()
    &&& (forall|i: int| 0 <= i < old.len() ==> #[trigger] old[i].name@ == new[i].name@)
        || (forall|j: int| 0 <= j < new.len() ==> has_parameter_named(old, #[trigger] new[j].name@))
}

/// A parameter that may be appended without breaking callers: optional, and keyword-only or
/// positional-or-keyword.
pub open spec fn optional_addable(p: ParameterSnapshot) -> bool {
    &&& !p.required
    &&& (p.kind@ == "ParameterKind.keyword_only"@ || p.kind@ == "ParameterKind.positional_or_keyword"@)
}

/// Every parameter that `new` appends after the old ones may be appended without breaking callers.
pub open spec fn tail_addable(old: Seq<ParameterSnapshot>, new: Seq<ParameterSnapshot>) -> bool {
    forall|j: int| old.len() <= j < new.len() ==> #[trigger] optional_addable(new[j])
}

/// The change from `old` to `new` is one that the classifier can describe precisely.
pub open spec fn signature_classifiable(old: Seq<ParameterSnapshot>, new: Seq<ParameterSnapshot>) -> bool {
    &&& forall|i: int| 0 <= i < old.len() ==> #[trigger] parameter_kept(old[i], new)
    &&& names_compatible(old, new)
    &&& tail_addable(old, new)
}

/// The unknown change that stands for a signature change the classifier cannot describe.
pub open spec fn unknown_signature_view(package: Seq<char>, symbol: Seq<char>) -> ApiChangeView {
    ApiChangeView {
        package: Some(package),
        severity: Severity::Unknown,
        kind: "signature_changed"@,
        symbol,
        file: None,
        line: None,
        message: "Signature changed in a non-breaking but unclassified way"@,
        backend: "apibump"@,
    }
}

pub open spec fn became_optional_view(package: Seq<char>, symbol: Seq<char>, name: Seq<char>) -> ApiChangeView {
    ApiChangeView {
        package: Some(package),
        severity: Severity::Additive,
        kind: "parameter_became_optional"@,
        symbol,
        file: None,
        line: None,
        message: "Parameter "@ + name + " became optional"@,
        backend: "apibump"@,
    }
}

pub open spec fn added_optional_view(package: Seq<char>, symbol: Seq<char>, name: Seq<char>) -> ApiChangeView {
    ApiChangeView {
        package: Some(package),
        severity: Severity::Additive,
        kind: "parameter_added_optional"@,
        symbol,
        file: None,
        line: None,
        message: "Optional parameter "@ + name + " was added"@,
        backend: "apibump"@,
    }
}

/// One additive change for each old parameter that became optional, in the order of `old`.
pub open spec fn became_optional_views(
    package: Seq<char>,
    symbol: Seq<char>,
    old: Seq<ParameterSnapshot>,
    new: Seq<ParameterSnapshot>,
) -> Seq<ApiChangeView>
    decreases old.len(),
{
    if old.len() == 0 {
        Seq::empty()
    } else {
        became_optional_views(package, symbol, old.drop_last(), new) + if became_optional(
            old.last(),
            new,
        ) {
            seq![became_optional_view(package, symbol, old.last().name@)]
        } else {
            Seq::empty()
        }
    }
}

/// One additive change for each appended parameter, in order.
pub open spec fn added_optional_views(
    package: Seq<char>,
    symbol: Seq<char>,
    appended: Seq<ParameterSnapshot>,
) -> Seq<ApiChangeView> {
    appended.map_values(|p: ParameterSnapshot| added_optional_view(package, symbol, p.name@))
}

/// The changes that a signature change from `old` to `new` amounts to: none if the parameters
/// are the same; one unknown change if the classifier cannot describe it; otherwise the
/// parameters that became optional followed by the optional parameters that were appended.
pub open spec fn parameter_change_views(
    package: Seq<char>,
    symbol: Seq<char>,
    old: Seq<ParameterSnapshot>,
    new: Seq<ParameterSnapshot>,
) -> Seq<ApiChangeView> {
    if same_parameters(old, new) {
        Seq::empty()
    } else if !signature_classifiable(old, new) {
        seq![unknown_signature_view(package, symbol)]
    } else {
        became_optional_views(package, symbol, old, new) + added_optional_views(
            package,
            symbol,
            new.skip(old.len() as int),
        )
    }
}

/// The unknown `signature_changed` change of `symbol` in `package`.
pub fn unknown_signature_change(package: &str, symbol: &str) -> (r: ApiChange)
    ensures
        r@ == unknown_signature_view(package@, symbol@),
{
    ApiChange {
        package: Some(String::from_str(package)),
        severity: Severity::Unknown,
        kind: String::from_str("signature_changed"),
        symbol: String::from_str(symbol),
        file: None,
        line: None,
        message: String::from_str("Signature changed in a non-breaking but unclassified way"),
        backend: String::from_str("apibump"),
    }
}

fn only_unknown_signature_change(package: &str, symbol: &str) -> (r: Vec<ApiChange>)
    ensures
        change_views(r@) == seq![unknown_signature_view(package@, symbol@)],
{
    let mut r = Vec::new();
    r.push(unknown_signature_change(package, symbol));
    assert(change_views(r@) =~= seq![unknown_signature_view(package@, symbol@)]);
    r
}

/// The position of the last parameter named `name`.
fn find_last_named(ps: &Vec<ParameterSnapshot>, name: &str) -> (r: Option<usize>)
    ensures
        r is None <==> last_named(ps@, name@) is None,
        r matches Some(j) ==> last_named(ps@, name@) == Some(j as int),
        r matches Some(j) ==> j < ps@.len() && ps@[j as int].name@ == name@,
        r is None ==> !has_parameter_named(ps@, name@),
{
    proof {
        lemma_last_named_found(ps@, name@);
    }
    let mut k = ps.len();
    assert(ps@.take(k as int) =~= ps@);
    while k > 0
        invariant
            k <= ps@.len(),
            last_named(ps@, name@) == last_named(ps@.take(k as int), name@),
        decreases k,
    {
        assert(ps@.take(k as int).drop_last() =~= ps@.take(k - 1));
        if text_equal(ps[k - 1].name.as_str(), name) {
            return Some(k - 1);
        }
        k = k - 1;
    }
    proof {
        assert(ps@.take(0) =~= Seq::<ParameterSnapshot>::empty());
    }
    None
}

proof fn lemma_last_named_found(ps: Seq<ParameterSnapshot>, name: Seq<char>)
    ensures
        match last_named(ps, name) {
            None => !has_parameter_named(ps, name),
            Some(j) => 0 <= j < ps.len() && ps[j].name@ == name,
        },
    decreases ps.len(),
{
    if ps.len() > 0 {
        lemma_last_named_found(ps.drop_last(), name);
        if ps.last().name@ != name && last_named(ps, name) is None {
            assert forall|i: int| 0 <= i < ps.len() implies #[trigger] ps[i].name@ != name by {
                if i < ps.len() - 1 {
                    assert(ps.drop_last()[i] == ps[i]);
                }
            }
        }
    }
}

/// Whether two parameter lists agree element by element.
fn parameters_equal(a: &Vec<ParameterSnapshot>, b: &Vec<ParameterSnapshot>) -> (r: bool)
    ensures
        r == same_parameters(a@, b@),
{
    if a.len() != b.len() {
        return false;
    }
    let n = a.len();
    for i in 0..n
        invariant
            n == a@.len(),
            n == b@.len(),
            forall|k: int| 0 <= k < i ==> #[trigger] same_parameter(a@[k], b@[k]),
    {
        if !text_equal(a[i].name.as_str(), b[i].name.as_str()) || !text_equal(
            a[i].kind.as_str(),
            b[i].kind.as_str(),
        ) || a[i].required != b[i].required {
            assert(!same_parameter(a@[i as int], b@[i as int]));
            return false;
        }
    }
    true
}

/// Classifies how the parameters of `symbol` changed from `old_params` to `new_params`.
pub fn classify_parameter_changes(
    package: &str,
    symbol: &str,
    old_params: &Vec<ParameterSnapshot>,
    new_params: &Vec<ParameterSnapshot>,
) -> (r: Vec<ApiChange>)
    ensures
        change_views(r@) == parameter_change_views(package@, symbol@, old_params@, new_params@),
{
    if parameters_equal(old_params, new_params) {
        let r: Vec<ApiChange> = Vec::new();
        assert(change_views(r@) =~= Seq::<ApiChangeView>::empty());
        return r;
    }
    let ghost old = old_params@;
    let ghost new = new_params@;
    let mut changes: Vec<ApiChange> = Vec::new();
    let n = old_params.len();
    for i in 0..n
        invariant
            n == old.len(),
            old == old_params@,
            new == new_params@,
            !same_parameters(old, new),
            forall|k: int| 0 <= k < i ==> #[trigger] parameter_kept(old[k], new),
            change_views(changes@) == became_optional_views(package@, symbol@, old.take(i as int), new),
    {
        let old_parameter = &old_params[i];
        proof {
            assert(old.take(i + 1).drop_last() =~= old.take(i as int));
            assert(old.take(i + 1).last() == old[i as int]);
        }
        let found = find_last_named(new_params, old_parameter.name.as_str());
        match found {
            None => {
                assert(!parameter_kept(old[i as int], new));
                return only_unknown_signature_change(package, symbol);
            },
            Some(j) => {
                let new_parameter = &new_params[j];
                if !text_equal(old_parameter.kind.as_str(), new_parameter.kind.as_str()) {
                    assert(!parameter_kept(old[i as int], new));
                    return only_unknown_signature_change(package, symbol);
                }
                if old_parameter.required && !new_parameter.required {
                    let ghost before = change_views(changes@);
                    changes.push(
                        ApiChange {
                            package: Some(String::from_str(package)),
                            severity: Severity::Additive,
                            kind: String::from_str("parameter_became_optional"),
                            symbol: String::from_str(symbol),
                            file: None,
                            line: None,
                            message: concat3("Parameter ", old_parameter.name.as_str(), " became optional"),
                            backend: String::from_str("apibump"),
                        },
                    );
                    assert(change_views(changes@) =~= before.push(
                        became_optional_view(package@, symbol@, old[i as int].name@),
                    ));
                } else if old_parameter.required != new_parameter.required {
                    assert(!parameter_kept(old[i as int], new));
                    return only_unknown_signature_change(package, symbol);
                } else {
                    assert(!became_optional(old[i as int], new));
                }
            },
        }
    }
    assert(old.take(n as int) =~= old);
    if new_params.len() < old_params.len() {
        return only_unknown_signature_change(package, symbol);
    }
    if !names_prefix_equal(old_params, new_params) {
        if !all_names_known(old_params, new_params) {
            return only_unknown_signature_change(package, symbol);
        }
    }
    let ghost head = change_views(changes@);
    let m = new_params.len();
    for j in n..m
        invariant
            n == old.len(),
            m == new.len(),
            n <= m,
            old == old_params@,
            new == new_params@,
            forall|k: int| n <= k < j ==> #[trigger] optional_addable(new[k]),
            change_views(changes@) == head + added_optional_views(
                package@,
                symbol@,
                new.subrange(n as int, j as int),
            ),
    {
        let new_parameter = &new_params[j];
        if new_parameter.required {
            assert(!optional_addable(new[j as int]));
            return only_unknown_signature_change(package, symbol);
        }
        if !text_equal(new_parameter.kind.as_str(), "ParameterKind.keyword_only") && !text_equal(
            new_parameter.kind.as_str(),
            "ParameterKind.positional_or_keyword",
        ) {
            assert(!optional_addable(new[j as int]));
            return only_unknown_signature_change(package, symbol);
        }
        let ghost before = change_views(changes@);
        changes.push(
            ApiChange {
                package: Some(String::from_str(package)),
                severity: Severity::Additive,
                kind: String::from_str("parameter_added_optional"),
                symbol: String::from_str(symbol),
                file: None,
                line: None,
                message: concat3("Optional parameter ", new_parameter.name.as_str(), " was added"),
                backend: String::from_str("apibump"),
            },
        );
        proof {
            assert(new.subrange(n as int, j + 1) =~= new.subrange(n as int, j as int).push(new[j as int]));
            assert(added_optional_views(package@, symbol@, new.subrange(n as int, j + 1))
                =~= added_optional_views(package@, symbol@, new.subrange(n as int, j as int)).push(
                added_optional_view(package@, symbol@, new[j as int].name@),
            ));
            assert(change_views(changes@) =~= before.push(
                added_optional_view(package@, symbol@, new[j as int].name@),
            ));
        }
    }
    assert(new.subrange(n as int, m as int) =~= new.skip(n as int));
    changes
}

/// Whether the names of `old` stand in place at the front of `new`.
fn names_prefix_equal(old: &Vec<ParameterSnapshot>, new: &Vec<ParameterSnapshot>) -> (r: bool)
    requires
        new@.len() >= old@.len(),
    ensures
        r == forall|i: int| 0 <= i < old@.len() ==> #[trigger] old@[i].name@ == new@[i].name@,
{
    let n = old.len();
    for i in 0..n
        invariant
            n == old@.len(),
            new@.len() >= n,
            forall|k: int| 0 <= k < i ==> #[trigger] old@[k].name@ == new@[k].name@,
    {
        if !text_equal(old[i].name.as_str(), new[i].name.as_str()) {
            return false;
        }
    }
    true
}

/// Whether every name in `new` is the name of some parameter of `old`.
fn all_names_known(old: &Vec<ParameterSnapshot>, new: &Vec<ParameterSnapshot>) -> (r: bool)
    ensures
        r == forall|j: int| 0 <= j < new@.len() ==> has_parameter_named(old@, #[trigger] new@[j].name@),
{
    let m = new.len();
    for j in 0..m
        invariant
            m == new@.len(),
            forall|k: int| 0 <= k < j ==> has_parameter_named(old@, #[trigger] new@[k].name@),
    {
        let found = find_last_named(old, new[j].name.as_str());
        proof {
            lemma_last_named_found(old@, new@[j as int].name@);
        }
        if found.is_none() {
            return false;
        }
    }
    true
}


/// The dotted prefixes of a symbol path, longest first: `a.b.c` has the ancestors `a.b` and `a`.
pub open spec fn ancestors(path: Seq<char>) -> Seq<Seq<char>>
    decreases path.len(),
{
    if path.len() == 0 {
        Seq::empty()
    } else if path.last() == '.' {
        seq![path.drop_last()] + ancestors(path.drop_last())
    } else {
        ancestors(path.drop_last())
    }
}

/// Some ancestor of `path` is in `paths`.
pub open spec fn has_ancestor_in(path: Seq<char>, paths: Set<Seq<char>>) -> bool {
    exists|a: Seq<char>| #[trigger] ancestors(path).contains(a) && paths.contains(a)
}

/// The dotted prefixes of `path`, longest first.
pub fn ancestor_paths(path: &str) -> (r: Vec<String>)
    ensures
        string_views(r@) == ancestors(path@),
{
    let chars = chars_of(path);
    let mut r: Vec<String> = Vec::new();
    let mut k = chars.len();
    proof {
        assert(chars@.take(k as int) =~= path@);
        assert(string_views(r@) + ancestors(path@) =~= ancestors(path@));
    }
    while k > 0
        invariant
            chars@ == path@,
            k <= chars@.len(),
            string_views(r@) + ancestors(chars@.take(k as int)) == ancestors(path@),
        decreases k,
    {
        let ghost before = string_views(r@);
        proof {
            assert(chars@.take(k as int).drop_last() =~= chars@.take(k - 1));
        }
        if chars[k - 1] == '.' {
            let prefix = string_from_chars(&chars, k - 1);
            r.push(prefix);
            assert(string_views(r@) =~= before.push(chars@.take(k - 1)));
            assert(before.push(chars@.take(k - 1)) + ancestors(chars@.take(k - 1)) =~= before + (
            seq![chars@.take(k - 1)] + ancestors(chars@.take(k - 1))));
        }
        k = k - 1;
    }
    proof {
        assert(chars@.take(0) =~= Seq::<char>::empty());
        assert(string_views(r@) + Seq::<Seq<char>>::empty() =~= string_views(r@));
    }
    r
}

/// Whether some ancestor of `path` is one of `paths`.
fn has_ancestor_among(path: &str, paths: &Vec<String>) -> (r: bool)
    ensures
        r == has_ancestor_in(path@, string_views(paths@).to_set()),
{
    let candidates = ancestor_paths(path);
    let n = candidates.len();
    for i in 0..n
        invariant
            n == candidates@.len(),
            string_views(candidates@) == ancestors(path@),
            forall|k: int| 0 <= k < i ==> !string_views(paths@).contains(#[trigger] ancestors(path@)[k]),
    {
        if contains_text(paths, candidates[i].as_str()) {
            proof {
                let a = ancestors(path@)[i as int];
                assert(string_views(candidates@)[i as int] == a);
                assert(ancestors(path@).contains(a));
                assert(string_views(paths@).to_set().contains(a));
            }
            return true;
        }
    }
    proof {
        assert forall|a: Seq<char>| #[trigger] ancestors(path@).contains(a) implies !string_views(paths@).to_set().contains(a) by {
            let k = choose|k: int| 0 <= k < ancestors(path@).len() && ancestors(path@)[k] == a;
        }
    }
    false
}

/// Whether some ancestor of `path` was itself added.
pub fn has_added_ancestor(path: &str, added_paths: &Vec<String>) -> (r: bool)
    ensures
        r == has_ancestor_in(path@, string_views(added_paths@).to_set()),
{
    has_ancestor_among(path, added_paths)
}

/// Whether some ancestor of `path` already has a breaking change.
pub fn has_breaking_ancestor(path: &str, breaking_paths: &Vec<String>) -> (r: bool)
    ensures
        r == has_ancestor_in(path@, string_views(breaking_paths@).to_set()),
{
    has_ancestor_among(path, breaking_paths)
}

/// Some symbol of `symbols` has the path `path`.
pub open spec fn has_symbol_path(symbols: Seq<SymbolSnapshot>, path: Seq<char>) -> bool {
    exists|i: int| 0 <= i < symbols.len() && #[trigger] symbols[i].path@ == path
}

/// The position of the last symbol with the path `path`: a later symbol of the same path hides
/// earlier ones.
pub open spec fn last_with_path(symbols: Seq<SymbolSnapshot>, path: Seq<char>) -> Option<int>
    decreases symbols.len(),
{
    if symbols.len() == 0 {
        None
    } else if symbols.last().path@ == path {
        Some(symbols.len() - 1)
    } else {
        last_with_path(symbols.drop_last(), path)
    }
}

/// The symbol of `symbols` that `path` stands for.
pub open spec fn symbol_at(symbols: Seq<SymbolSnapshot>, path: Seq<char>) -> SymbolSnapshot {
    symbols[last_with_path(symbols, path).unwrap()]
}

/// The paths that only the new snapshot has.
pub open spec fn added_path_set(old: Seq<SymbolSnapshot>, new: Seq<SymbolSnapshot>) -> Set<Seq<char>> {
    Set::new(|p: Seq<char>| has_symbol_path(new, p) && !has_symbol_path(old, p))
}

/// The paths that both snapshots have.
pub open spec fn common_path_set(old: Seq<SymbolSnapshot>, new: Seq<SymbolSnapshot>) -> Set<Seq<char>> {
    Set::new(|p: Seq<char>| has_symbol_path(old, p) && has_symbol_path(new, p))
}

pub open spec fn symbol_kind_text(kind: SymbolKind) -> Seq<char> {
    match kind {
        SymbolKind::Module => "module"@,
        SymbolKind::Class => "class"@,
        SymbolKind::Function => "function"@,
        SymbolKind::Method => "method"@,
        SymbolKind::Attribute => "attribute"@,
        SymbolKind::Alias => "alias"@,
    }
}

/// Symbols of these kinds have parameters that the classifier compares.
pub open spec fn has_signature(kind: SymbolKind) -> bool {
    kind == SymbolKind::Function || kind == SymbolKind::Method || kind == SymbolKind::Alias
}

pub open spec fn object_added_view(package: Seq<char>, path: Seq<char>, kind: SymbolKind) -> ApiChangeView {
    ApiChangeView {
        package: Some(package),
        severity: Severity::Additive,
        kind: "object_added"@,
        symbol: path,
        file: None,
        line: None,
        message: "Public "@ + symbol_kind_text(kind) + " was added"@,
        backend: "apibump"@,
    }
}

pub open spec fn object_changed_view(package: Seq<char>, path: Seq<char>) -> ApiChangeView {
    ApiChangeView {
        package: Some(package),
        severity: Severity::Unknown,
        kind: "object_changed"@,
        symbol: path,
        file: None,
        line: None,
        message: "Public object changed in a non-breaking but unclassified way"@,
        backend: "apibump"@,
    }
}

/// One `object_added` change for each added path in `keys` none of whose ancestors was added.
pub open spec fn added_views(
    package: Seq<char>,
    keys: Seq<Seq<char>>,
    added: Set<Seq<char>>,
    new: Seq<SymbolSnapshot>,
) -> Seq<ApiChangeView>
    decreases keys.len(),
{
    if keys.len() == 0 {
        Seq::empty()
    } else {
        added_views(package, keys.drop_last(), added, new) + if has_ancestor_in(keys.last(), added) {
            Seq::empty()
        } else {
            seq![object_added_view(package, keys.last(), symbol_at(new, keys.last()).kind)]
        }
    }
}

/// A path that has a breaking change itself, or below one of its ancestors: the backend already
/// reported what changed there.
pub open spec fn covered_by_breaking(path: Seq<char>, breaking: Set<Seq<char>>) -> bool {
    breaking.contains(path) || has_ancestor_in(path, breaking)
}

/// The changes of one path that both snapshots have: none where the path is covered by a
/// breaking change.
pub open spec fn common_path_views(
    package: Seq<char>,
    path: Seq<char>,
    old: Seq<SymbolSnapshot>,
    new: Seq<SymbolSnapshot>,
    breaking: Set<Seq<char>>,
) -> Seq<ApiChangeView> {
    let o = symbol_at(old, path);
    let n = symbol_at(new, path);
    if covered_by_breaking(path, breaking) {
        Seq::empty()
    } else if o.kind != n.kind || o.parent_path@ != n.parent_path@ {
        seq![object_changed_view(package, path)]
    } else if has_signature(n.kind) {
        parameter_change_views(package, path, o.parameters@, n.parameters@)
    } else {
        Seq::empty()
    }
}

/// The changes of the paths in `keys`, in order.
pub open spec fn common_views(
    package: Seq<char>,
    keys: Seq<Seq<char>>,
    old: Seq<SymbolSnapshot>,
    new: Seq<SymbolSnapshot>,
    breaking: Set<Seq<char>>,
) -> Seq<ApiChangeView>
    decreases keys.len(),
{
    if keys.len() == 0 {
        Seq::empty()
    } else {
        common_views(package, keys.drop_last(), old, new, breaking) + common_path_views(
            package,
            keys.last(),
            old,
            new,
            breaking,
        )
    }
}

/// The changes that the two snapshots show beside the backend's breaking changes: the added
/// paths in order, each unless an ancestor was added too; then the common paths in order,
/// each unless it or an ancestor has a breaking change.
pub open spec fn snapshot_change_views(
    package: Seq<char>,
    old: Seq<SymbolSnapshot>,
    new: Seq<SymbolSnapshot>,
    breaking: Set<Seq<char>>,
) -> Seq<ApiChangeView> {
    added_views(package, sorted_texts(added_path_set(old, new)), added_path_set(old, new), new)
        + common_views(package, sorted_texts(common_path_set(old, new)), old, new, breaking)
}

/// The name under which a symbol kind appears in messages.
pub fn symbol_kind_label(kind: &SymbolKind) -> (r: &'static str)
    ensures
        r@ == symbol_kind_text(*kind),
{
    match kind {
        SymbolKind::Module => "module",
        SymbolKind::Class => "class",
        SymbolKind::Function => "function",
        SymbolKind::Method => "method",
        SymbolKind::Attribute => "attribute",
        SymbolKind::Alias => "alias",
    }
}

proof fn lemma_last_with_path_found(symbols: Seq<SymbolSnapshot>, path: Seq<char>)
    ensures
        match last_with_path(symbols, path) {
            None => !has_symbol_path(symbols, path),
            Some(j) => 0 <= j < symbols.len() && symbols[j].path@ == path,
        },
    decreases symbols.len(),
{
    if symbols.len() > 0 {
        lemma_last_with_path_found(symbols.drop_last(), path);
        if symbols.last().path@ != path && last_with_path(symbols, path) is None {
            assert forall|i: int| 0 <= i < symbols.len() implies #[trigger] symbols[i].path@ != path by {
                if i < symbols.len() - 1 {
                    assert(symbols.drop_last()[i] == symbols[i]);
                }
            }
        }
    }
}

/// The position of the last symbol with the path `path`.
fn find_last_path(symbols: &Vec<SymbolSnapshot>, path: &str) -> (r: Option<usize>)
    ensures
        r is None <==> last_with_path(symbols@, path@) is None,
        r matches Some(j) ==> last_with_path(symbols@, path@) == Some(j as int),
        r matches Some(j) ==> j < symbols@.len() && symbols@[j as int].path@ == path@,
        r is None <==> !has_symbol_path(symbols@, path@),
{
    proof {
        lemma_last_with_path_found(symbols@, path@);
    }
    let mut k = symbols.len();
    assert(symbols@.take(k as int) =~= symbols@);
    while k > 0
        invariant
            k <= symbols@.len(),
            last_with_path(symbols@, path@) == last_with_path(symbols@.take(k as int), path@),
        decreases k,
    {
        assert(symbols@.take(k as int).drop_last() =~= symbols@.take(k - 1));
        if text_equal(symbols[k - 1].path.as_str(), path) {
            return Some(k - 1);
        }
        k = k - 1;
    }
    proof {
        assert(symbols@.take(0) =~= Seq::<SymbolSnapshot>::empty());
    }
    None
}

/// Some symbol among the first `n` of `symbols` has the path `path`.
pub open spec fn has_symbol_path_before(symbols: Seq<SymbolSnapshot>, path: Seq<char>, n: int) -> bool {
    exists|k: int| 0 <= k < n && #[trigger] symbols[k].path@ == path
}

/// The sorted paths that `from` has, without repetitions, restricted to those that `other` has
/// (`keep_shared`) or lacks (`!keep_shared`).
fn sorted_paths_against(
    from: &Vec<SymbolSnapshot>,
    other: &Vec<SymbolSnapshot>,
    keep_shared: bool,
) -> (r: Vec<String>)
    ensures
        strictly_sorted(string_views(r@)),
        forall|p: Seq<char>|
            #![trigger string_views(r@).contains(p)]
            string_views(r@).contains(p) <==> (has_symbol_path(from@, p) && (has_symbol_path(other@, p)
                == keep_shared)),
{
    let mut r: Vec<String> = Vec::new();
    let n = from.len();
    proof {
        assert(string_views(r@) =~= Seq::<Seq<char>>::empty());
    }
    for i in 0..n
        invariant
            n == from@.len(),
            strictly_sorted(string_views(r@)),
            forall|p: Seq<char>|
                #![trigger string_views(r@).contains(p)]
                string_views(r@).contains(p) <==> (has_symbol_path_before(from@, p, i as int) && (
                has_symbol_path(other@, p) == keep_shared)),
    {
        let path = &from[i].path;
        let shared = find_last_path(other, path.as_str()).is_some();
        let ghost before = string_views(r@);
        if shared == keep_shared {
            insert_sorted_text(&mut r, path.clone());
        }
        proof {
            assert forall|p: Seq<char>|
                #![trigger string_views(r@).contains(p)]
                string_views(r@).contains(p) <==> (has_symbol_path_before(from@, p, i + 1) && (
                has_symbol_path(other@, p) == keep_shared)) by {
                if has_symbol_path_before(from@, p, i + 1) {
                    let k = choose|k: int| 0 <= k < i + 1 && #[trigger] from@[k].path@ == p;
                    if k < i {
                        assert(has_symbol_path_before(from@, p, i as int));
                    }
                }
                if has_symbol_path_before(from@, p, i as int) {
                    let k = choose|k: int| 0 <= k < i && #[trigger] from@[k].path@ == p;
                    assert(from@[k].path@ == p);
                }
                if p == path@ {
                    assert(from@[i as int].path@ == p);
                }
                assert(before.contains(p) == (has_symbol_path_before(from@, p, i as int) && (
                    has_symbol_path(other@, p) == keep_shared)));
            }
        }
    }
    proof {
        assert forall|p: Seq<char>|
            #![trigger string_views(r@).contains(p)]
            string_views(r@).contains(p) <==> (has_symbol_path(from@, p) && (has_symbol_path(other@, p)
                == keep_shared)) by {
            if has_symbol_path(from@, p) {
                let k = choose|k: int| 0 <= k < from@.len() && #[trigger] from@[k].path@ == p;
                assert(has_symbol_path_before(from@, p, n as int));
            }
            if has_symbol_path_before(from@, p, n as int) {
                let k = choose|k: int| 0 <= k < n && #[trigger] from@[k].path@ == p;
                assert(from@[k].path@ == p);
            }
        }
    }
    r
}

/// The additive and unknown changes that the two snapshots of `package` show beside the
/// breaking changes of `breaking_paths`.
pub fn classify_snapshot_changes(
    package: &str,
    old_snapshot: &Vec<SymbolSnapshot>,
    new_snapshot: &Vec<SymbolSnapshot>,
    breaking_paths: &Vec<String>,
) -> (r: Vec<ApiChange>)
    ensures
        change_views(r@) == snapshot_change_views(
            package@,
            old_snapshot@,
            new_snapshot@,
            string_views(breaking_paths@).to_set(),
        ),
{
    let ghost old = old_snapshot@;
    let ghost new = new_snapshot@;
    let ghost breaking = string_views(breaking_paths@).to_set();
    let added = sorted_paths_against(new_snapshot, old_snapshot, false);
    let ghost added_set = added_path_set(old, new);
    proof {
        assert forall|p: Seq<char>| string_views(added@).contains(p) <==> added_set.contains(p) by {
            if string_views(added@).contains(p) {
                let k = choose|k: int| 0 <= k < new.len() && new[k].path@ == p;
            }
        }
        lemma_sorted_texts(string_views(added@), added_set);
        assert(string_views(added@).to_set() =~= added_set);
    }
    let mut changes: Vec<ApiChange> = Vec::new();
    let n = added.len();
    for i in 0..n
        invariant
            n == added@.len(),
            new == new_snapshot@,
            string_views(added@) == sorted_texts(added_set),
            string_views(added@).to_set() == added_set,
            added_set == added_path_set(old, new),
            forall|p: Seq<char>| string_views(added@).contains(p) ==> #[trigger] added_set.contains(p),
            change_views(changes@) == added_views(
                package@,
                string_views(added@).take(i as int),
                added_set,
                new,
            ),
    {
        let path = &added[i];
        proof {
            assert(string_views(added@).take(i + 1).drop_last() =~= string_views(added@).take(i as int));
            assert(string_views(added@).take(i + 1).last() == path@);
        }
        if !has_added_ancestor(path.as_str(), &added) {
            proof {
                assert(string_views(added@)[i as int] == path@);
                assert(string_views(added@).contains(path@));
                assert(added_set.contains(path@));
                assert(has_symbol_path(new, path@));
            }
            let found = find_last_path(new_snapshot, path.as_str());
            match found {
                Some(j) => {
                    let symbol = &new_snapshot[j];
                    let ghost before = change_views(changes@);
                    changes.push(
                        ApiChange {
                            package: Some(String::from_str(package)),
                            severity: Severity::Additive,
                            kind: String::from_str("object_added"),
                            symbol: symbol.path.clone(),
                            file: None,
                            line: None,
                            message: concat3("Public ", symbol_kind_label(&symbol.kind), " was added"),
                            backend: String::from_str("apibump"),
                        },
                    );
                    assert(change_views(changes@) =~= before.push(
                        object_added_view(package@, path@, symbol_at(new, path@).kind),
                    ));
                },
                None => {
                    assert(false);
                },
            }
        } else {
            assert(string_views(added@).take(i + 1) =~= string_views(added@).take(i as int).push(path@));
        }
    }
    assert(string_views(added@).take(n as int) =~= string_views(added@));
    let ghost head = change_views(changes@);
    let common = sorted_paths_against(old_snapshot, new_snapshot, true);
    let ghost common_set = common_path_set(old, new);
    proof {
        assert forall|p: Seq<char>| string_views(common@).contains(p) <==> common_set.contains(p) by {
            if string_views(common@).contains(p) {
                let k = choose|k: int| 0 <= k < old.len() && old[k].path@ == p;
            }
        }
        lemma_sorted_texts(string_views(common@), common_set);
    }
    let m = common.len();
    for i in 0..m
        invariant
            m == common@.len(),
            old == old_snapshot@,
            new == new_snapshot@,
            breaking == string_views(breaking_paths@).to_set(),
            string_views(common@) == sorted_texts(common_set),
            common_set == common_path_set(old, new),
            forall|p: Seq<char>| string_views(common@).contains(p) ==> #[trigger] common_set.contains(p),
            change_views(changes@) == head + common_views(
                package@,
                string_views(common@).take(i as int),
                old,
                new,
                breaking,
            ),
    {
        let path = &common[i];
        let ghost before = change_views(changes@);
        proof {
            assert(string_views(common@).take(i + 1).drop_last() =~= string_views(common@).take(i as int));
            assert(string_views(common@).take(i + 1).last() == path@);
            assert(string_views(common@)[i as int] == path@);
            assert(string_views(common@).contains(path@));
            assert(common_set.contains(path@));
        }
        let ghost expected = common_path_views(package@, path@, old, new, breaking);
        let is_breaking = contains_text(breaking_paths, path.as_str());
        proof {
            assert(string_views(breaking_paths@).to_set().contains(path@) == string_views(breaking_paths@).contains(
                path@,
            ));
        }
        if is_breaking || has_breaking_ancestor(path.as_str(), breaking_paths) {
            assert(expected =~= Seq::<ApiChangeView>::empty());
            assert(before + expected =~= before);
        } else {
            let old_index = find_last_path(old_snapshot, path.as_str());
            let new_index = find_last_path(new_snapshot, path.as_str());
            match (old_index, new_index) {
                (Some(oi), Some(ni)) => {
                    let old_symbol = &old_snapshot[oi];
                    let new_symbol = &new_snapshot[ni];
                    if old_symbol.kind != new_symbol.kind || !text_equal(
                        old_symbol.parent_path.as_str(),
                        new_symbol.parent_path.as_str(),
                    ) {
                        changes.push(
                            ApiChange {
                                package: Some(String::from_str(package)),
                                severity: Severity::Unknown,
                                kind: String::from_str("object_changed"),
                                symbol: old_symbol.path.clone(),
                                file: None,
                                line: None,
                                message: String::from_str(
                                    "Public object changed in a non-breaking but unclassified way",
                                ),
                                backend: String::from_str("apibump"),
                            },
                        );
                        assert(change_views(changes@) =~= before + expected);
                    } else if new_symbol.kind == SymbolKind::Function || new_symbol.kind
                        == SymbolKind::Method || new_symbol.kind == SymbolKind::Alias {
                        let more = classify_parameter_changes(
                            package,
                            old_symbol.path.as_str(),
                            &old_symbol.parameters,
                            &new_symbol.parameters,
                        );
                        let mut more = more;
                        let ghost more_views = change_views(more@);
                        changes.append(&mut more);
                        assert(change_views(changes@) =~= before + more_views);
                    } else {
                        assert(expected =~= Seq::<ApiChangeView>::empty());
                        assert(before + expected =~= before);
                    }
                },
                _ => {
                    assert(false);
                },
            }
        }
        assert(change_views(changes@) == before + expected);
        assert(head + common_views(package@, string_views(common@).take(i + 1), old, new, breaking)
            =~= head + common_views(package@, string_views(common@).take(i as int), old, new, breaking)
            + expected);
    }
    assert(string_views(common@).take(m as int) =~= string_views(common@));
    changes
}


/// The longest ignore pattern, in characters, that a check compiles. Below it every literal that
/// globset hands to aho-corasick stays far under that crate's limit of `i32::MAX - 1` states and
/// transitions, the one limit on which `GlobSetBuilder::build` panics instead of failing.
pub const MAX_GLOB_PATTERN_CHARS: usize = 0x1000_0000;

/// A pattern short enough for globset to build a matcher for it without panicking.
pub open spec fn glob_pattern_fits(pattern: Seq<char>) -> bool {
    pattern.len() < MAX_GLOB_PATTERN_CHARS
}

/// A pattern that a check can use: short enough, and one for which globset builds a matcher.
pub open spec fn glob_usable(pattern: Seq<char>) -> bool {
    glob_pattern_fits(pattern) && glob_compiles(pattern)
}

/// A glob pattern for which globset builds a matcher: `Glob::new` accepts it and
/// `GlobSetBuilder::build` compiles a set holding it.
pub uninterp spec fn glob_compiles(pattern: Seq<char>) -> bool;

/// Whether the globset matcher built from `pattern`, with default options, matches `text` as a
/// path.
pub uninterp spec fn glob_matches(pattern: Seq<char>, text: Seq<char>) -> bool;

/// `globset::Glob::new` and then `GlobSetBuilder::build` on a builder that holds that one glob:
/// `None` where both succeed, else the text of globset's error. The build reports a regex that
/// exceeds globset's size limit as an error. The contract ties success to the name
/// `glob_compiles` and states nothing of the text.
#[verifier::external_body]
fn glob_error(pattern: &str) -> (r: Option<String>)
    requires
        glob_pattern_fits(pattern@),
    ensures
        r is None <==> glob_compiles(pattern@),
{
    match globset::Glob::new(pattern) {
        Err(error) => Some(error.to_string()),
        Ok(glob) => globset::GlobSetBuilder::new().add(glob).build().err().map(|error| error.to_string()),
    }
}

/// `globset::GlobSet::is_match` on the set that `GlobSetBuilder::build` makes of the one glob
/// `Glob::new(pattern)`: whether `text` matches `pattern`, named `glob_matches`. Both steps
/// succeed on a pattern of which `glob_compiles` holds, since they are the ones `glob_error`
/// runs on the same pattern.
#[verifier::external_body]
fn glob_is_match(pattern: &str, text: &str) -> (r: bool)
    requires
        glob_pattern_fits(pattern@),
        glob_compiles(pattern@),
    ensures
        r == glob_matches(pattern@, text@),
{
    match globset::Glob::new(pattern) {
        Ok(glob) => match globset::GlobSetBuilder::new().add(glob).build() {
            Ok(set) => set.is_match(text),
            Err(_) => false,
        },
        Err(_) => false,
    }
}

/// An ignore rule whose symbol pattern globset compiles.
#[derive(Debug)]
pub struct CompiledIgnoreRule {
    symbol: String,
    kind: Option<String>,
    package: Option<String>,
}

impl CompiledIgnoreRule {
    #[verifier::type_invariant]
    spec fn well_formed(self) -> bool {
        glob_pattern_fits(self.symbol@) && glob_compiles(self.symbol@)
    }

    /// The glob pattern that symbols are matched against.
    pub closed spec fn pattern(self) -> Seq<char> {
        self.symbol@
    }

    /// The change kind that the rule is limited to, if any.
    pub closed spec fn kind_filter(self) -> Option<Seq<char>> {
        opt_str(self.kind)
    }

    /// The package that the rule is limited to, if any.
    pub closed spec fn package_filter(self) -> Option<Seq<char>> {
        opt_str(self.package)
    }
}

/// Why a check cannot go on.
#[derive(Debug, Clone, PartialEq, Eq)]
pub enum CheckError {
    InvalidIgnorePattern { pattern: String, detail: String },
    Backend(BackendError),
}

impl CheckError {
    /// The message that explains the failure.
    pub fn message(&self) -> (r: String)
        ensures
            match self {
                CheckError::InvalidIgnorePattern { pattern, detail } => r@ == "invalid ignore symbol pattern "@
                    + pattern@,
                CheckError::Backend(e) => r@ == backend_error_text(*e),
            },
    {
        match self {
            CheckError::InvalidIgnorePattern { pattern, detail } => concat2(
                "invalid ignore symbol pattern ",
                pattern.as_str(),
            ),
            CheckError::Backend(e) => e.message(),
        }
    }
}

/// The rule compiled, or the refusal of its symbol pattern: a pattern of `MAX_GLOB_PATTERN_CHARS`
/// characters or more is refused as too long, and otherwise one that globset cannot compile.
pub fn compile_ignore_rule(rule: &IgnoreRule) -> (r: Result<CompiledIgnoreRule, CheckError>)
    ensures
        glob_usable(rule.symbol@) ==> (r matches Ok(c) && c.pattern() == rule.symbol@ && c.kind_filter()
            == opt_str(rule.kind) && c.package_filter() == opt_str(rule.package)),
        !glob_usable(rule.symbol@) ==> (r matches Err(CheckError::InvalidIgnorePattern { pattern, detail })
            && pattern@ == rule.symbol@),
        !glob_pattern_fits(rule.symbol@) ==> (r matches Err(CheckError::InvalidIgnorePattern { pattern, detail })
            && detail@ == "pattern too long"@),
{
    if rule.symbol.unicode_len() >= MAX_GLOB_PATTERN_CHARS {
        return Err(
            CheckError::InvalidIgnorePattern {
                pattern: rule.symbol.clone(),
                detail: String::from_str("pattern too long"),
            },
        );
    }
    match glob_error(rule.symbol.as_str()) {
        Some(detail) => Err(CheckError::InvalidIgnorePattern { pattern: rule.symbol.clone(), detail }),
        None => Ok(
            CompiledIgnoreRule {
                symbol: rule.symbol.clone(),
                kind: opt_string_copy(&rule.kind),
                package: opt_string_copy(&rule.package),
            },
        ),
    }
}

/// The ignore rules of the configuration, if any.
pub open spec fn config_rules(config: Option<&ApibumpConfig>) -> Seq<IgnoreRule> {
    match config {
        Some(c) => c.ignore@,
        None => Seq::empty(),
    }
}

/// The compiled ignore rules of the configuration, in order, or the refusal of the first pattern
/// that is too long or that globset does not compile.
pub fn compile_ignore_rules(config: Option<&ApibumpConfig>) -> (r: Result<Vec<CompiledIgnoreRule>, CheckError>)
    ensures
        r matches Ok(compiled) ==> compiled@.len() == config_rules(config).len() && forall|i: int|
            0 <= i < compiled@.len() ==> {
                &&& #[trigger] compiled@[i].pattern() == config_rules(config)[i].symbol@
                &&& compiled@[i].kind_filter() == opt_str(config_rules(config)[i].kind)
                &&& compiled@[i].package_filter() == opt_str(config_rules(config)[i].package)
            },
        r is Ok <==> forall|i: int|
            0 <= i < config_rules(config).len() ==> glob_usable(#[trigger] config_rules(config)[i].symbol@),
        r matches Err(e) ==> e matches CheckError::InvalidIgnorePattern { pattern, detail } && exists|i: int|
            0 <= i < config_rules(config).len() && !glob_usable(#[trigger] config_rules(config)[i].symbol@)
                && pattern@ == config_rules(config)[i].symbol@ && forall|k: int|
                0 <= k < i ==> glob_usable(#[trigger] config_rules(config)[k].symbol@),
{
    let ghost wanted = config_rules(config);
    let mut rules: Vec<CompiledIgnoreRule> = Vec::new();
    let ignore: &Vec<IgnoreRule> = match config {
        None => {
            assert(wanted =~= Seq::<IgnoreRule>::empty());
            return Ok(rules);
        },
        Some(c) => &c.ignore,
    };
    assert(ignore@ == wanted);
    let n = ignore.len();
    let mut i: usize = 0;
    while i < n
        invariant
            n == ignore@.len(),
            i <= n,
            ignore@ == wanted,
            wanted == config_rules(config),
            rules@.len() == i,
            forall|k: int| 0 <= k < i ==> glob_usable(#[trigger] wanted[k].symbol@),
            forall|k: int|
                0 <= k < i ==> {
                    &&& #[trigger] rules@[k].pattern() == wanted[k].symbol@
                    &&& rules@[k].kind_filter() == opt_str(wanted[k].kind)
                    &&& rules@[k].package_filter() == opt_str(wanted[k].package)
                },
        decreases n - i,
    {
        let compiled = compile_ignore_rule(&ignore[i]);
        match compiled {
            Ok(rule) => {
                assert(glob_usable(ignore@[i as int].symbol@));
                assert(rule.pattern() == wanted[i as int].symbol@);
                assert(rule.kind_filter() == opt_str(wanted[i as int].kind));
                let ghost before = rules@;
                rules.push(rule);
                assert(rules@ =~= before.push(rule));
                assert(rules@[i as int].pattern() == wanted[i as int].symbol@);
            },
            Err(e) => {
                assert(!glob_usable(wanted[i as int].symbol@));
                return Err(e);
            },
        }
        i = i + 1;
    }
    Ok(rules)
}

/// An ignore rule applies to a change: its pattern matches the change's symbol, and its kind
/// and package, where it names them, are the change's.
pub open spec fn rule_matches(rule: CompiledIgnoreRule, change: ApiChangeView) -> bool {
    &&& glob_matches(rule.pattern(), change.symbol)
    &&& (rule.kind_filter() matches Some(k) ==> change.kind == k)
    &&& (rule.package_filter() matches Some(p) ==> change.package == Some(p))
}

/// Some rule applies to a change.
pub open spec fn any_rule_matches(rules: Seq<CompiledIgnoreRule>, change: ApiChangeView) -> bool {
    exists|i: int| 0 <= i < rules.len() && #[trigger] rule_matches(rules[i], change)
}

/// Whether an ignore rule applies to a change.
pub fn ignore_rule_matches(rule: &CompiledIgnoreRule, change: &ApiChange) -> (r: bool)
    ensures
        r == rule_matches(*rule, change@),
{
    proof {
        use_type_invariant(rule);
    }
    if !glob_is_match(rule.symbol.as_str(), change.symbol.as_str()) {
        return false;
    }
    if let Some(kind) = &rule.kind {
        if !text_equal(change.kind.as_str(), kind.as_str()) {
            return false;
        }
    }
    if let Some(package) = &rule.package {
        match &change.package {
            Some(p) => {
                if !text_equal(p.as_str(), package.as_str()) {
                    return false;
                }
            },
            None => {
                return false;
            },
        }
    }
    true
}

/// The changes to which no rule applies, in order.
pub open spec fn unmatched_changes(rules: Seq<CompiledIgnoreRule>, changes: Seq<ApiChangeView>) -> Seq<ApiChangeView>
    decreases changes.len(),
{
    if changes.len() == 0 {
        Seq::empty()
    } else {
        unmatched_changes(rules, changes.drop_last()) + if any_rule_matches(rules, changes.last()) {
            Seq::empty()
        } else {
            seq![changes.last()]
        }
    }
}

/// The changes to which some rule applies, in order.
pub open spec fn matched_changes(rules: Seq<CompiledIgnoreRule>, changes: Seq<ApiChangeView>) -> Seq<ApiChangeView>
    decreases changes.len(),
{
    if changes.len() == 0 {
        Seq::empty()
    } else {
        matched_changes(rules, changes.drop_last()) + if any_rule_matches(rules, changes.last()) {
            seq![changes.last()]
        } else {
            Seq::empty()
        }
    }
}

/// Splits changes into those that stay active and those that an ignore rule suppresses, each
/// in the order they came in.
pub fn apply_ignore_rules(changes: Vec<ApiChange>, ignore_rules: &Vec<CompiledIgnoreRule>) -> (r: (
    Vec<ApiChange>,
    Vec<ApiChange>,
))
    ensures
        change_views(r.0@) == unmatched_changes(ignore_rules@, change_views(changes@)),
        change_views(r.1@) == matched_changes(ignore_rules@, change_views(changes@)),
{
    let ghost all = change_views(changes@);
    let mut active: Vec<ApiChange> = Vec::new();
    let mut suppressed: Vec<ApiChange> = Vec::new();
    let n = changes.len();
    assert(all.take(0) =~= Seq::<ApiChangeView>::empty());
    assert(change_views(active@) =~= Seq::<ApiChangeView>::empty());
    assert(change_views(suppressed@) =~= Seq::<ApiChangeView>::empty());
    for i in 0..n
        invariant
            n == changes@.len(),
            all == change_views(changes@),
            change_views(active@) == unmatched_changes(ignore_rules@, all.take(i as int)),
            change_views(suppressed@) == matched_changes(ignore_rules@, all.take(i as int)),
    {
        let change = changes[i].copy();
        proof {
            assert(all.take(i + 1).drop_last() =~= all.take(i as int));
            assert(all.take(i + 1).last() == change@);
        }
        let m = ignore_rules.len();
        let mut matched = false;
        let mut j: usize = 0;
        while j < m && !matched
            invariant
                m == ignore_rules@.len(),
                j <= m,
                matched ==> any_rule_matches(ignore_rules@, change@),
                !matched ==> forall|k: int| 0 <= k < j ==> !#[trigger] rule_matches(ignore_rules@[k], change@),
            decreases m - j,
        {
            if ignore_rule_matches(&ignore_rules[j], &change) {
                matched = true;
            }
            j = j + 1;
        }
        assert(matched == any_rule_matches(ignore_rules@, change@));
        let ghost a = change_views(active@);
        let ghost b = change_views(suppressed@);
        let ghost cv = change@;
        if matched {
            suppressed.push(change);
            assert(change_views(suppressed@) =~= b.push(cv));
            assert(a + Seq::<ApiChangeView>::empty() =~= a);
        } else {
            active.push(change);
            assert(change_views(active@) =~= a.push(cv));
            assert(b + Seq::<ApiChangeView>::empty() =~= b);
        }
    }
    assert(all.take(n as int) =~= all);
    (active, suppressed)
}


/// Changes in the order of their symbol, then kind, then message.
pub open spec fn change_order() -> spec_fn(ApiChangeView, ApiChangeView) -> bool {
    |a: ApiChangeView, b: ApiChangeView|
        seq_less(a.symbol, b.symbol) || (a.symbol == b.symbol && (seq_less(a.kind, b.kind) || (a.kind
            == b.kind && seq_less(a.message, b.message))))
}

/// Whether `a` comes before `b` in the order of symbol, kind and message.
fn change_comes_before(a: &ApiChange, b: &ApiChange) -> (r: bool)
    ensures
        r == (change_order())(a@, b@),
{
    let ghost expected = seq_less(a.symbol@, b.symbol@) || (a.symbol@ == b.symbol@ && (seq_less(
        a.kind@,
        b.kind@,
    ) || (a.kind@ == b.kind@ && seq_less(a.message@, b.message@))));
    assert((change_order())(a@, b@) == expected);
    let by_symbol = text_order(a.symbol.as_str(), b.symbol.as_str());
    if by_symbol == TextOrder::Less {
        return true;
    }
    if by_symbol == TextOrder::Greater {
        proof {
            lemma_seq_less_asymmetric(b.symbol@, a.symbol@);
            lemma_seq_less_irreflexive(a.symbol@);
        }
        assert(!expected);
        return false;
    }
    assert(a.symbol@ == b.symbol@);
    proof {
        lemma_seq_less_irreflexive(a.symbol@);
    }
    let by_kind = text_order(a.kind.as_str(), b.kind.as_str());
    if by_kind == TextOrder::Less {
        return true;
    }
    if by_kind == TextOrder::Greater {
        proof {
            lemma_seq_less_asymmetric(b.kind@, a.kind@);
            lemma_seq_less_irreflexive(a.kind@);
        }
        assert(!expected);
        return false;
    }
    assert(a.kind@ == b.kind@);
    proof {
        lemma_seq_less_irreflexive(a.kind@);
        lemma_seq_less_irreflexive(a.message@);
    }
    text_order(a.message.as_str(), b.message.as_str()) == TextOrder::Less
}

/// The changes sorted stably by symbol, kind and message.
pub fn sort_changes(changes: Vec<ApiChange>) -> (r: Vec<ApiChange>)
    ensures
        change_views(r@) == sort_by(change_views(changes@), change_order()),
{
    let ghost all = change_views(changes@);
    let mut sorted: Vec<ApiChange> = Vec::new();
    let n = changes.len();
    assert(all.take(0) =~= Seq::<ApiChangeView>::empty());
    assert(change_views(sorted@) =~= Seq::<ApiChangeView>::empty());
    for i in 0..n
        invariant
            n == changes@.len(),
            all == change_views(changes@),
            change_views(sorted@) == sort_by(all.take(i as int), change_order()),
    {
        let c = changes[i].copy();
        let ghost s = change_views(sorted@);
        let mut k = sorted.len();
        while k > 0 && change_comes_before(&c, &sorted[k - 1])
            invariant
                k <= sorted@.len(),
                s == change_views(sorted@),
                forall|j: int| k <= j < s.len() ==> (change_order())(c@, #[trigger] s[j]),
            decreases k,
        {
            k = k - 1;
        }
        proof {
            if k > 0 {
                assert(s[k - 1] == sorted@[k - 1]@);
            }
            lemma_insert_by_position(s, c@, change_order(), k as int);
            assert(all.take(i + 1).drop_last() =~= all.take(i as int));
            assert(all.take(i + 1).last() == c@);
        }
        let ghost cv = c@;
        sorted.insert(k, c);
        assert(change_views(sorted@) =~= s.take(k as int).push(cv) + s.skip(k as int));
    }
    assert(all.take(n as int) =~= all);
    sorted
}

pub open spec fn breaking_view(package: Seq<char>, change: BreakingChange) -> ApiChangeView {
    ApiChangeView {
        package: Some(package),
        severity: Severity::Breaking,
        kind: change.kind@,
        symbol: change.symbol@,
        file: opt_str(change.file),
        line: change.line,
        message: change.message@,
        backend: change.backend@,
    }
}

/// A breaking change of the backend as a change of `package`.
pub fn to_breaking_api_change(package: &str, change: BreakingChange) -> (r: ApiChange)
    ensures
        r@ == breaking_view(package@, change),
{
    ApiChange {
        package: Some(String::from_str(package)),
        severity: Severity::Breaking,
        kind: change.kind,
        symbol: change.symbol,
        file: change.file,
        line: change.line,
        message: change.message,
        backend: change.backend,
    }
}

/// A package that a check looks at.
#[derive(Debug, Clone, PartialEq, Eq)]
pub struct SelectedPackage {
    pub package: String,
    pub search: Vec<String>,
    pub roots: Vec<String>,
    pub changed: bool,
}

pub ghost struct SelectedPackageView {
    pub package: Seq<char>,
    pub search: Seq<Seq<char>>,
    pub roots: Seq<Seq<char>>,
    pub changed: bool,
}

impl View for SelectedPackage {
    type V = SelectedPackageView;

    open spec fn view(&self) -> SelectedPackageView {
        SelectedPackageView {
            package: self.package@,
            search: string_views(self.search@),
            roots: string_views(self.roots@),
            changed: self.changed,
        }
    }
}

pub open spec fn selected_views(packages: Seq<SelectedPackage>) -> Seq<SelectedPackageView> {
    packages.map_values(|p: SelectedPackage| p@)
}

/// The change that records files changed without any public API change.
pub open spec fn internal_only_view(package: Seq<char>) -> ApiChangeView {
    ApiChangeView {
        package: Some(package),
        severity: Severity::Internal,
        kind: "internal_only"@,
        symbol: package,
        file: None,
        line: None,
        message: "Files changed without a public API change"@,
        backend: "apibump"@,
    }
}

/// No change is anything but internal.
pub open spec fn only_internal(changes: Seq<ApiChangeView>) -> bool {
    forall|i: int| 0 <= i < changes.len() ==> #[trigger] changes[i].severity == Severity::Internal
}

/// The changes of a package before ignore rules: its breaking changes and its snapshot changes,
/// sorted by symbol, kind and message.
pub open spec fn package_changes_spec(package: Seq<char>, result: PythonBackendResult) -> Seq<ApiChangeView> {
    let breaking = result.breaking_changes@.map_values(|c: BreakingChange| breaking_view(package, c));
    let breaking_paths = result.breaking_changes@.map_values(|c: BreakingChange| c.symbol@).to_set();
    sort_by(
        breaking + snapshot_change_views(package, result.old_snapshot@, result.new_snapshot@, breaking_paths),
        change_order(),
    )
}

/// The active changes of a package report: those no rule suppresses, and, where the package
/// changed but shows nothing beyond internal changes, an `internal_only` change.
pub open spec fn package_active_spec(
    package: SelectedPackageView,
    all: Seq<ApiChangeView>,
    changed_files: Seq<Seq<char>>,
    rules: Seq<CompiledIgnoreRule>,
) -> Seq<ApiChangeView> {
    let active = unmatched_changes(rules, all);
    if package.changed && only_internal(active) && roots_changed(package.roots, changed_files) {
        active.push(internal_only_view(package.package))
    } else {
        active
    }
}

/// The report of one package from what the backend returned.
pub fn build_package_report(
    package: &SelectedPackage,
    result: PythonBackendResult,
    changed_files: &[String],
    ignore_rules: &Vec<CompiledIgnoreRule>,
) -> (r: PackageReport)
    ensures
        r.package@ == package.package@,
        change_views(r.changes@) == package_active_spec(
            package@,
            package_changes_spec(package.package@, result),
            string_views(changed_files@),
            ignore_rules@,
        ),
        change_views(r.suppressed_changes@) == matched_changes(
            ignore_rules@,
            package_changes_spec(package.package@, result),
        ),
        package_report_consistent(r),
{
    let ghost pkg = package.package@;
    let ghost breaking_spec = result.breaking_changes@.map_values(|c: BreakingChange| breaking_view(pkg, c));
    let ghost paths_spec = result.breaking_changes@.map_values(|c: BreakingChange| c.symbol@);
    let PythonBackendResult { breaking_changes, old_snapshot, new_snapshot, diagnostics } = result;
    let mut changes: Vec<ApiChange> = Vec::new();
    let mut breaking_paths: Vec<String> = Vec::new();
    let n = breaking_changes.len();
    assert(breaking_spec.take(0) =~= Seq::<ApiChangeView>::empty());
    assert(paths_spec.take(0) =~= Seq::<Seq<char>>::empty());
    assert(change_views(changes@) =~= Seq::<ApiChangeView>::empty());
    assert(string_views(breaking_paths@) =~= Seq::<Seq<char>>::empty());
    let mut i: usize = 0;
    while i < n
        invariant
            n == breaking_spec.len(),
            n == paths_spec.len(),
            i <= n,
            breaking_changes@ == result.breaking_changes@,
            breaking_spec == result.breaking_changes@.map_values(|c: BreakingChange| breaking_view(pkg, c)),
            paths_spec == result.breaking_changes@.map_values(|c: BreakingChange| c.symbol@),
            pkg == package.package@,
            change_views(changes@) == breaking_spec.take(i as int),
            string_views(breaking_paths@) == paths_spec.take(i as int),
        decreases n - i,
    {
        let change = breaking_changes[i].copy();
        let ghost before = change_views(changes@);
        let ghost before_paths = string_views(breaking_paths@);
        breaking_paths.push(change.symbol.clone());
        let converted = to_breaking_api_change(package.package.as_str(), change);
        changes.push(converted);
        proof {
            assert(change_views(changes@) =~= before.push(breaking_spec[i as int]));
            assert(breaking_spec.take(i + 1) =~= breaking_spec.take(i as int).push(breaking_spec[i as int]));
            assert(string_views(breaking_paths@) =~= before_paths.push(paths_spec[i as int]));
            assert(paths_spec.take(i + 1) =~= paths_spec.take(i as int).push(paths_spec[i as int]));
        }
        i = i + 1;
    }
    assert(breaking_spec.take(n as int) =~= breaking_spec);
    assert(paths_spec.take(n as int) =~= paths_spec);
    let mut snapshot_changes = classify_snapshot_changes(
        package.package.as_str(),
        &old_snapshot,
        &new_snapshot,
        &breaking_paths,
    );
    let ghost head = change_views(changes@);
    let ghost tail = change_views(snapshot_changes@);
    changes.append(&mut snapshot_changes);
    assert(change_views(changes@) =~= head + tail);
    let sorted = sort_changes(changes);
    let (mut active, suppressed) = apply_ignore_rules(sorted, ignore_rules);
    let ghost active_before = change_views(active@);
    let mut only_internal_active = true;
    let m = active.len();
    for j in 0..m
        invariant
            m == active@.len(),
            active_before == change_views(active@),
            only_internal_active == forall|k: int| 0 <= k < j ==> #[trigger] active_before[k].severity
                == Severity::Internal,
    {
        proof {
            assert(active_before[j as int] == active@[j as int]@);
        }
        let ghost was = only_internal_active;
        if active[j].severity != Severity::Internal {
            only_internal_active = false;
        }
        proof {
            if active_before[j as int].severity != Severity::Internal {
                assert(!(forall|k: int| 0 <= k < j + 1 ==> #[trigger] active_before[k].severity
                    == Severity::Internal));
            } else if was {
                assert(forall|k: int| 0 <= k < j + 1 ==> #[trigger] active_before[k].severity
                    == Severity::Internal);
            } else {
                let w = choose|k: int| 0 <= k < j && !(active_before[k].severity == Severity::Internal);
                assert(!(forall|k: int| 0 <= k < j + 1 ==> #[trigger] active_before[k].severity
                    == Severity::Internal));
            }
        }
    }
    if package.changed && only_internal_active && package_has_changed(package.roots.as_slice(), changed_files) {
        active.push(
            ApiChange {
                package: Some(package.package.clone()),
                severity: Severity::Internal,
                kind: String::from_str("internal_only"),
                symbol: package.package.clone(),
                file: None,
                line: None,
                message: String::from_str("Files changed without a public API change"),
                backend: String::from_str("apibump"),
            },
        );
        assert(change_views(active@) =~= active_before.push(internal_only_view(pkg)));
    }
    PackageReport::new(package.package.as_str(), active, suppressed)
}

/// A package's report and the diagnostics of its backend run.
#[derive(Debug)]
pub struct EvaluatedPackage {
    pub report: PackageReport,
    pub diagnostics: Vec<Diagnostic>,
}

/// The text of the diagnostic that records a failed backend run for `package`.
pub open spec fn backend_failed_text(package: Seq<char>, message: Seq<char>) -> Seq<char> {
    "griffe backend failed for "@ + package + ": "@ + message
}

/// Copies of the diagnostics.
fn copy_diagnostics(diagnostics: &Vec<Diagnostic>) -> (r: Vec<Diagnostic>)
    ensures
        diagnostic_views(r@) == diagnostic_views(diagnostics@),
{
    let mut r: Vec<Diagnostic> = Vec::new();
    let n = diagnostics.len();
    assert(diagnostic_views(r@) =~= diagnostic_views(diagnostics@.take(0)));
    for i in 0..n
        invariant
            n == diagnostics@.len(),
            diagnostic_views(r@) == diagnostic_views(diagnostics@.take(i as int)),
    {
        let ghost before = diagnostic_views(r@);
        r.push(diagnostics[i].copy());
        assert(diagnostic_views(r@) =~= before.push(diagnostics@[i as int]@));
        assert(diagnostic_views(diagnostics@.take(i + 1)) =~= diagnostic_views(diagnostics@.take(i as int)).push(
            diagnostics@[i as int]@,
        ));
    }
    assert(diagnostics@.take(n as int) =~= diagnostics@);
    r
}

/// The outcome for one package: its report where the backend ran; where it failed and the check
/// is not strict, a report with one unknown `backend_error` change and an error diagnostic; where
/// it failed and the check is strict, the failure.
pub fn evaluate_python_package(
    package: &SelectedPackage,
    outcome: Result<PythonBackendResult, BackendError>,
    changed_files: &[String],
    ignore_rules: &Vec<CompiledIgnoreRule>,
    strict: bool,
) -> (r: Result<EvaluatedPackage, BackendError>)
    ensures
        match outcome {
            Ok(result) => r matches Ok(e) && {
                &&& e.report.package@ == package.package@
                &&& change_views(e.report.changes@) == package_active_spec(
                    package@,
                    package_changes_spec(package.package@, result),
                    string_views(changed_files@),
                    ignore_rules@,
                )
                &&& change_views(e.report.suppressed_changes@) == matched_changes(
                    ignore_rules@,
                    package_changes_spec(package.package@, result),
                )
                &&& package_report_consistent(e.report)
                &&& diagnostic_views(e.diagnostics@) == diagnostic_views(result.diagnostics@)
            },
            Err(error) => if strict {
                r == Err::<EvaluatedPackage, BackendError>(error)
            } else {
                r matches Ok(e) && {
                    &&& e.report.package@ == package.package@
                    &&& change_views(e.report.changes@) == seq![backend_error_change(
                        Some(package.package@),
                        backend_error_text(error),
                        "griffe"@,
                    )]
                    &&& e.report.suppressed_changes@.len() == 0
                    &&& package_report_consistent(e.report)
                    &&& diagnostic_views(e.diagnostics@) == seq![DiagnosticView {
                        level: "error"@,
                        message: backend_failed_text(package.package@, backend_error_text(error)),
                    }]
                }
            },
        },
{
    match outcome {
        Ok(result) => {
            let diagnostics = copy_diagnostics(&result.diagnostics);
            let report = build_package_report(package, result, changed_files, ignore_rules);
            Ok(EvaluatedPackage { report, diagnostics })
        },
        Err(error) => {
            if strict {
                return Err(error);
            }
            let message = error.message();
            let mut changes = Vec::new();
            changes.push(
                ApiChange {
                    package: Some(package.package.clone()),
                    severity: Severity::Unknown,
                    kind: String::from_str("backend_error"),
                    symbol: String::from_str("<backend>"),
                    file: None,
                    line: None,
                    message: message.clone(),
                    backend: String::from_str("griffe"),
                },
            );
            let mut text = concat3("griffe backend failed for ", package.package.as_str(), ": ");
            text.append(message.as_str());
            let mut diagnostics = Vec::new();
            diagnostics.push(Diagnostic { level: String::from_str("error"), message: text });
            proof {
                assert(change_views(changes@) =~= seq![backend_error_change(
                    Some(package.package@),
                    backend_error_text(error),
                    "griffe"@,
                )]);
                assert(diagnostic_views(diagnostics@) =~= seq![DiagnosticView {
                    level: "error"@,
                    message: backend_failed_text(package.package@, backend_error_text(error)),
                }]);
            }
            let report = PackageReport::new(package.package.as_str(), changes, Vec::new());
            Ok(EvaluatedPackage { report, diagnostics })
        },
    }
}


/// The languages that a check can be run for.
#[derive(Debug, Clone, Copy, PartialEq, Eq, Structural)]
pub enum Language {
    Python,
}

/// When a check fails.
#[derive(Debug, Clone, Copy, PartialEq, Eq, Structural)]
pub enum FailOn {
    Breaking,
    Unknown,
    Never,
}

/// The arguments of `apibump check`.
#[derive(Debug, Clone, PartialEq, Eq)]
pub struct CheckArgs {
    pub language: Language,
    pub package: Option<String>,
    pub search_paths: Vec<String>,
    pub config: Option<String>,
    pub all_packages: bool,
    pub base: String,
    pub head: String,
    pub repo: String,
    pub format: OutputFormat,
    pub fail_on: Option<FailOn>,
    pub strict: bool,
    pub json_output: Option<String>,
    pub markdown_output: Option<String>,
    pub python: Option<String>,
}

/// The commands of the command line.
#[derive(Debug, Clone, PartialEq, Eq)]
pub enum Commands {
    Check(CheckArgs),
}

/// A parsed command line.
#[derive(Debug, Clone, PartialEq, Eq)]
pub struct Cli {
    pub command: Commands,
}

/// The fail-on policy that a configuration value names.
pub open spec fn spec_map_config_fail_on(value: ConfigFailOn) -> FailOn {
    match value {
        ConfigFailOn::Breaking => FailOn::Breaking,
        ConfigFailOn::Unknown => FailOn::Unknown,
        ConfigFailOn::Never => FailOn::Never,
    }
}

/// The fail-on policy that a configuration value names.
pub fn map_config_fail_on(value: ConfigFailOn) -> (r: FailOn)
    ensures
        r == spec_map_config_fail_on(value),
{
    match value {
        ConfigFailOn::Breaking => FailOn::Breaking,
        ConfigFailOn::Unknown => FailOn::Unknown,
        ConfigFailOn::Never => FailOn::Never,
    }
}

/// The policy in force: the command line's, else the configuration's, else failing on breaking
/// changes.
pub open spec fn spec_effective_fail_on(cli_fail_on: Option<FailOn>, config: Option<&ApibumpConfig>) -> FailOn {
    match cli_fail_on {
        Some(f) => f,
        None => match config {
            Some(c) => match c.defaults.fail_on {
                Some(f) => spec_map_config_fail_on(f),
                None => FailOn::Breaking,
            },
            None => FailOn::Breaking,
        },
    }
}

/// The fail-on policy in force.
pub fn effective_fail_on(cli_fail_on: Option<FailOn>, config: Option<&ApibumpConfig>) -> (r: FailOn)
    ensures
        r == spec_effective_fail_on(cli_fail_on, config),
{
    match cli_fail_on {
        Some(f) => f,
        None => match config {
            Some(c) => match c.defaults.fail_on {
                Some(f) => map_config_fail_on(f),
                None => FailOn::Breaking,
            },
            None => FailOn::Breaking,
        },
    }
}

/// The selection mode in force: the configuration's, else only changed packages.
pub fn selection_mode(config: Option<&ApibumpConfig>) -> (r: SelectionMode)
    ensures
        r == match config {
            Some(c) => match c.defaults.selection {
                Some(m) => m,
                None => SelectionMode::Changed,
            },
            None => SelectionMode::Changed,
        },
{
    match config {
        Some(c) => match c.defaults.selection {
            Some(m) => m,
            None => SelectionMode::Changed,
        },
        None => SelectionMode::Changed,
    }
}

/// A report fails a check: never under `Never`; on any breaking change under `Breaking`; on any
/// breaking or unknown change under `Unknown`.
pub open spec fn spec_should_fail(report: ApiReport, fail_on: FailOn) -> bool {
    match fail_on {
        FailOn::Never => false,
        FailOn::Breaking => report.summary.breaking > 0,
        FailOn::Unknown => report.summary.breaking > 0 || report.summary.unknown > 0,
    }
}

/// Whether a report fails the check under the policy `fail_on`.
pub fn should_fail(report: &ApiReport, fail_on: FailOn) -> (r: bool)
    ensures
        r == spec_should_fail(*report, fail_on),
{
    match fail_on {
        FailOn::Never => false,
        FailOn::Breaking => report.summary.breaking > 0,
        FailOn::Unknown => report.summary.breaking > 0 || report.summary.unknown > 0,
    }
}

/// The exit status of a completed check: 1 where the report fails under `fail_on`, else 0.
pub fn exit_code(report: &ApiReport, fail_on: FailOn) -> (r: u8)
    ensures
        r == if spec_should_fail(*report, fail_on) { 1u8 } else { 0u8 },
{
    if should_fail(report, fail_on) {
        1
    } else {
        0
    }
}

/// A configured package as a package of the configuration file at `config_path`.
pub open spec fn configured_view(config_path: Seq<char>, package: ConfigPackageView) -> DiscoveredPackageView {
    DiscoveredPackageView {
        package: package.package,
        search: package.search,
        roots: package.roots,
        manifest_path: config_path,
    }
}

/// A configured package as a package of the configuration file at `config_path`.
pub fn to_discovered_package(config_path: &str, package: &ConfigPackage) -> (r: DiscoveredPackage)
    ensures
        r@ == configured_view(config_path@, package@),
{
    DiscoveredPackage {
        package: package.package.clone(),
        search: package.search.clone(),
        roots: package.roots.clone(),
        manifest_path: String::from_str(config_path),
    }
}

/// A package as the check looks at it: whether its roots hold a changed file.
pub open spec fn selected_view(package: DiscoveredPackageView, changed_files: Seq<Seq<char>>) -> SelectedPackageView {
    SelectedPackageView {
        package: package.package,
        search: package.search,
        roots: package.roots,
        changed: roots_changed(package.roots, changed_files),
    }
}

/// The packages that a check looks at, with whether each changed.
pub open spec fn select_packages_spec(
    packages: Seq<DiscoveredPackageView>,
    changed_files: Seq<Seq<char>>,
    selection: SelectionMode,
    all_packages: bool,
) -> Seq<SelectedPackageView> {
    selected_packages_spec(packages, changed_files, selection, all_packages).map_values(
        |p: DiscoveredPackageView| selected_view(p, changed_files),
    )
}

/// The packages that a check looks at, with whether each changed.
pub fn select_packages(
    packages: Vec<DiscoveredPackage>,
    changed_files: &[String],
    selection: SelectionMode,
    all_packages: bool,
) -> (r: Vec<SelectedPackage>)
    ensures
        selected_views(r@) == select_packages_spec(
            discovered_views(packages@),
            string_views(changed_files@),
            selection,
            all_packages,
        ),
{
    let chosen = if all_packages || selection == SelectionMode::All {
        packages
    } else {
        select_changed_packages(packages.as_slice(), changed_files, selection, all_packages)
    };
    let ghost cv = discovered_views(chosen@);
    let ghost files = string_views(changed_files@);
    let mut r: Vec<SelectedPackage> = Vec::new();
    let n = chosen.len();
    assert(selected_views(r@) =~= cv.take(0).map_values(|p: DiscoveredPackageView| selected_view(p, files)));
    for i in 0..n
        invariant
            n == chosen@.len(),
            cv == discovered_views(chosen@),
            files == string_views(changed_files@),
            selected_views(r@) == cv.take(i as int).map_values(
                |p: DiscoveredPackageView| selected_view(p, files),
            ),
    {
        let package = &chosen[i];
        let changed = package_has_changed(package.roots.as_slice(), changed_files);
        let ghost before = selected_views(r@);
        r.push(
            SelectedPackage {
                package: package.package.clone(),
                search: package.search.clone(),
                roots: package.roots.clone(),
                changed,
            },
        );
        proof {
            assert(cv[i as int] == package@);
            assert(selected_views(r@) =~= before.push(selected_view(cv[i as int], files)));
            assert(cv.take(i + 1).map_values(|p: DiscoveredPackageView| selected_view(p, files))
                =~= cv.take(i as int).map_values(|p: DiscoveredPackageView| selected_view(p, files)).push(
                selected_view(cv[i as int], files),
            ));
        }
    }
    assert(cv.take(n as int) =~= cv);
    r
}

/// Why the packages of a check cannot be settled.
#[derive(Debug, Clone, PartialEq, Eq)]
pub enum ResolveError {
    /// Neither the command line nor the configuration names a package: the repository must be
    /// searched for candidates first.
    DiscoveryRequired,
    NoPackageDetected,
    MultipleCandidates { candidates: String },
}

impl ResolveError {
    /// The message that explains the failure.
    pub fn message(&self) -> (r: String)
        ensures
            match self {
                ResolveError::DiscoveryRequired => r@ == "package discovery is required"@,
                ResolveError::NoPackageDetected => r@
                    == "could not detect a Python package; pass --package or add apibump.toml"@,
                ResolveError::MultipleCandidates { candidates } => r@
                    == "multiple Python package candidates detected: "@ + candidates@
                    + ". Add apibump.toml or pass --package."@,
            },
    {
        match self {
            ResolveError::DiscoveryRequired => String::from_str("package discovery is required"),
            ResolveError::NoPackageDetected => String::from_str(
                "could not detect a Python package; pass --package or add apibump.toml",
            ),
            ResolveError::MultipleCandidates { candidates } => concat3(
                "multiple Python package candidates detected: ",
                candidates.as_str(),
                ". Add apibump.toml or pass --package.",
            ),
        }
    }
}

/// One candidate as the refusal lists it: its name and, in brackets, its manifest.
pub open spec fn candidate_text(p: DiscoveredPackageView) -> Seq<char> {
    p.package + " ("@ + p.manifest_path + ")"@
}

/// The candidates as the refusal lists them, separated by `, `.
pub open spec fn candidate_list(packages: Seq<DiscoveredPackageView>) -> Seq<char>
    decreases packages.len(),
{
    if packages.len() == 0 {
        Seq::empty()
    } else if packages.len() == 1 {
        candidate_text(packages[0])
    } else {
        candidate_list(packages.drop_last()) + ", "@ + candidate_text(packages.last())
    }
}

fn list_candidates(packages: &Vec<DiscoveredPackage>) -> (r: String)
    ensures
        r@ == candidate_list(discovered_views(packages@)),
{
    let ghost all = discovered_views(packages@);
    let mut r = String::new();
    let n = packages.len();
    assert(all.take(0) =~= Seq::<DiscoveredPackageView>::empty());
    for i in 0..n
        invariant
            n == packages@.len(),
            all == discovered_views(packages@),
            r@ == candidate_list(all.take(i as int)),
    {
        proof {
            assert(all.take(i + 1).drop_last() =~= all.take(i as int));
            assert(all.take(i + 1).last() == packages@[i as int]@);
            if i == 0 {
                assert(all.take(1)[0] == packages@[0]@);
            }
        }
        if i > 0 {
            r.append(", ");
        }
        r.append(packages[i].package.as_str());
        r.append(" (");
        r.append(packages[i].manifest_path.as_str());
        r.append(")");
        proof {
            if i == 0 {
                assert(r@ =~= candidate_text(packages@[0]@));
            } else {
                assert(r@ =~= candidate_list(all.take(i as int)) + ", "@ + candidate_text(packages@[i as int]@));
            }
        }
    }
    assert(all.take(n as int) =~= all);
    r
}

/// The package that `--package` names, searched in `--search` (or `.`), with the search paths
/// as its roots.
pub open spec fn explicit_package_view(package: Seq<char>, args: CheckArgs, changed_files: Seq<Seq<char>>) -> SelectedPackageView {
    let search = if args.search_paths@.len() == 0 {
        seq!["."@]
    } else {
        string_views(args.search_paths@)
    };
    SelectedPackageView { package, search, roots: search, changed: roots_changed(search, changed_files) }
}

/// The configured packages of a configuration that has some.
pub open spec fn configured_packages(config: Option<&ApibumpConfig>) -> Option<Seq<DiscoveredPackageView>> {
    match config {
        Some(c) => if c.packages@.len() > 0 {
            Some(package_views(c.packages@).map_values(|p: ConfigPackageView| configured_view(c.path@, p)))
        } else {
            None
        },
        None => None,
    }
}

/// Which packages a check looks at: the one that `--package` names; else the configured ones;
/// else, once the repository has been searched, the only candidate, or the only changed one of
/// several. No candidate, or several of which not exactly one changed, is refused.
pub fn resolve_packages(
    args: &CheckArgs,
    config: Option<&ApibumpConfig>,
    changed_files: &[String],
    selection: SelectionMode,
    discovered: Option<Vec<DiscoveredPackage>>,
) -> (r: Result<Vec<SelectedPackage>, ResolveError>)
    ensures
        match args.package {
            Some(p) => r matches Ok(v) && selected_views(v@) == seq![explicit_package_view(p@, *args, string_views(changed_files@))],
            None => match configured_packages(config) {
                Some(configured) => r matches Ok(v) && selected_views(v@) == select_packages_spec(
                    configured,
                    string_views(changed_files@),
                    selection,
                    args.all_packages,
                ),
                None => match discovered {
                    None => r matches Err(ResolveError::DiscoveryRequired),
                    Some(d) => {
                        let dv = discovered_views(d@);
                        let changed = changed_packages(dv, string_views(changed_files@));
                        if dv.len() == 0 {
                            r matches Err(ResolveError::NoPackageDetected)
                        } else if dv.len() == 1 {
                            r matches Ok(v) && selected_views(v@) == select_packages_spec(
                                dv,
                                string_views(changed_files@),
                                selection,
                                args.all_packages,
                            )
                        } else if changed.len() == 1 {
                            r matches Ok(v) && selected_views(v@) == select_packages_spec(
                                changed,
                                string_views(changed_files@),
                                selection,
                                args.all_packages,
                            )
                        } else {
                            r matches Err(ResolveError::MultipleCandidates { candidates }) && candidates@
                                == candidate_list(dv)
                        }
                    },
                },
            },
        },
{
    if let Some(package) = &args.package {
        let search = if args.search_paths.len() == 0 {
            let mut s = Vec::new();
            s.push(String::from_str("."));
            assert(string_views(s@) =~= seq!["."@]);
            s
        } else {
            args.search_paths.clone()
        };
        let roots = search.clone();
        let changed = package_has_changed(roots.as_slice(), changed_files);
        let mut r = Vec::new();
        r.push(SelectedPackage { package: package.clone(), search, roots, changed });
        assert(selected_views(r@) =~= seq![explicit_package_view(package@, *args, string_views(changed_files@))]);
        return Ok(r);
    }
    if let Some(config) = config {
        if config.packages.len() > 0 {
            let mut configured: Vec<DiscoveredPackage> = Vec::new();
            let n = config.packages.len();
            let ghost pv = package_views(config.packages@);
            let ghost f = |p: ConfigPackageView| configured_view(config.path@, p);
            assert(discovered_views(configured@) =~= pv.take(0).map_values(f));
            for i in 0..n
                invariant
                    n == config.packages@.len(),
                    pv == package_views(config.packages@),
                    f == (|p: ConfigPackageView| configured_view(config.path@, p)),
                    discovered_views(configured@) == pv.take(i as int).map_values(f),
            {
                let ghost before = discovered_views(configured@);
                configured.push(to_discovered_package(config.path.as_str(), &config.packages[i]));
                proof {
                    assert(pv[i as int] == config.packages@[i as int]@);
                    assert(discovered_views(configured@) =~= before.push(f(pv[i as int])));
                    assert(pv.take(i + 1).map_values(f) =~= pv.take(i as int).map_values(f).push(f(pv[i as int])));
                }
            }
            assert(pv.take(n as int) =~= pv);
            return Ok(select_packages(configured, changed_files, selection, args.all_packages));
        }
    }
    let discovered = match discovered {
        None => return Err(ResolveError::DiscoveryRequired),
        Some(d) => d,
    };
    if discovered.len() == 0 {
        return Err(ResolveError::NoPackageDetected);
    }
    if discovered.len() == 1 {
        return Ok(select_packages(discovered, changed_files, selection, args.all_packages));
    }
    let changed_candidates = select_changed_packages(
        discovered.as_slice(),
        changed_files,
        SelectionMode::Changed,
        false,
    );
    if changed_candidates.len() == 1 {
        return Ok(select_packages(changed_candidates, changed_files, selection, args.all_packages));
    }
    let candidates = list_candidates(&discovered);
    Err(ResolveError::MultipleCandidates { candidates })
}


proof fn lemma_became_optional_views_additive(
    package: Seq<char>,
    symbol: Seq<char>,
    old: Seq<ParameterSnapshot>,
    new: Seq<ParameterSnapshot>,
)
    ensures
        forall|i: int|
            0 <= i < became_optional_views(package, symbol, old, new).len() ==> {
                &&& #[trigger] became_optional_views(package, symbol, old, new)[i].severity == Severity::Additive
                &&& became_optional_views(package, symbol, old, new)[i].symbol == symbol
                &&& became_optional_views(package, symbol, old, new)[i].package == Some(package)
            },
    decreases old.len(),
{
    if old.len() > 0 {
        lemma_became_optional_views_additive(package, symbol, old.drop_last(), new);
        let head = became_optional_views(package, symbol, old.drop_last(), new);
        let r = became_optional_views(package, symbol, old, new);
        assert forall|i: int| 0 <= i < r.len() implies #[trigger] r[i].severity == Severity::Additive
            && r[i].symbol == symbol && r[i].package == Some(package) by {
            if i < head.len() {
                assert(r[i] == head[i]);
            }
        }
    }
}

/// The classifier of parameter changes is conservative: it never reports a breaking change; it
/// reports only additive changes, or one single unknown change; and it reports nothing when the
/// parameters stayed the same. Every change it reports is about `symbol` in `package`.
pub proof fn law_parameter_classification_is_conservative(
    package: Seq<char>,
    symbol: Seq<char>,
    old: Seq<ParameterSnapshot>,
    new: Seq<ParameterSnapshot>,
)
    ensures
        forall|i: int|
            #![trigger parameter_change_views(package, symbol, old, new)[i]]
            0 <= i < parameter_change_views(package, symbol, old, new).len() ==> {
                let c = parameter_change_views(package, symbol, old, new)[i];
                &&& c.severity == Severity::Additive || c.severity == Severity::Unknown
                &&& c.severity == Severity::Unknown ==> parameter_change_views(package, symbol, old, new).len() == 1
                &&& c.symbol == symbol
                &&& c.package == Some(package)
            },
        same_parameters(old, new) ==> parameter_change_views(package, symbol, old, new).len() == 0,
{
    let r = parameter_change_views(package, symbol, old, new);
    if same_parameters(old, new) {
    } else if !signature_classifiable(old, new) {
        assert(r == seq![unknown_signature_view(package, symbol)]);
    } else {
        lemma_became_optional_views_additive(package, symbol, old, new);
        let a = became_optional_views(package, symbol, old, new);
        let b = added_optional_views(package, symbol, new.skip(old.len() as int));
        assert(r == a + b);
        assert forall|i: int| #![trigger r[i]] 0 <= i < r.len() implies r[i].severity == Severity::Additive
            && r[i].symbol == symbol && r[i].package == Some(package) by {
            if i < a.len() {
                assert(r[i] == a[i]);
            } else {
                assert(r[i] == b[i - a.len()]);
            }
        }
    }
}

proof fn lemma_added_views_shape(
    package: Seq<char>,
    keys: Seq<Seq<char>>,
    added: Set<Seq<char>>,
    new: Seq<SymbolSnapshot>,
)
    ensures
        forall|i: int|
            #![trigger added_views(package, keys, added, new)[i]]
            0 <= i < added_views(package, keys, added, new).len() ==> {
                &&& added_views(package, keys, added, new)[i].severity == Severity::Additive
                &&& added_views(package, keys, added, new)[i].kind == "object_added"@
                &&& !has_ancestor_in(added_views(package, keys, added, new)[i].symbol, added)
                &&& added_views(package, keys, added, new)[i].package == Some(package)
            },
    decreases keys.len(),
{
    if keys.len() > 0 {
        lemma_added_views_shape(package, keys.drop_last(), added, new);
        let head = added_views(package, keys.drop_last(), added, new);
        let r = added_views(package, keys, added, new);
        assert forall|i: int| #![trigger r[i]] 0 <= i < r.len() implies {
            &&& r[i].severity == Severity::Additive
            &&& r[i].kind == "object_added"@
            &&& !has_ancestor_in(r[i].symbol, added)
            &&& r[i].package == Some(package)
        } by {
            if i < head.len() {
                assert(r[i] == head[i]);
            }
        }
    }
}

proof fn lemma_change_kinds_distinct()
    ensures
        "object_changed"@ != "object_added"@,
        "signature_changed"@ != "object_added"@,
        "parameter_became_optional"@ != "object_added"@,
        "parameter_added_optional"@ != "object_added"@,
{
    reveal_strlit("object_added");
    reveal_strlit("object_changed");
    reveal_strlit("signature_changed");
    reveal_strlit("parameter_became_optional");
    reveal_strlit("parameter_added_optional");
    assert("object_added"@.len() == 12);
    assert("object_changed"@.len() == 14);
    assert("signature_changed"@.len() == 17);
    assert("parameter_became_optional"@.len() == 25);
    assert("parameter_added_optional"@.len() == 24);
}

proof fn lemma_path_views_shape(
    package: Seq<char>,
    path: Seq<char>,
    old: Seq<SymbolSnapshot>,
    new: Seq<SymbolSnapshot>,
    breaking: Set<Seq<char>>,
)
    ensures
        forall|j: int|
            #![trigger common_path_views(package, path, old, new, breaking)[j]]
            0 <= j < common_path_views(package, path, old, new, breaking).len() ==> {
                &&& common_path_views(package, path, old, new, breaking)[j].severity != Severity::Breaking
                &&& common_path_views(package, path, old, new, breaking)[j].severity != Severity::Internal
                &&& common_path_views(package, path, old, new, breaking)[j].kind != "object_added"@
                &&& common_path_views(package, path, old, new, breaking)[j].symbol == path
                &&& common_path_views(package, path, old, new, breaking)[j].package == Some(package)
                &&& !covered_by_breaking(path, breaking)
            },
{
    lemma_change_kinds_distinct();
    let tail = common_path_views(package, path, old, new, breaking);
    let o = symbol_at(old, path);
    let n = symbol_at(new, path);
    if covered_by_breaking(path, breaking) {
        assert(tail.len() == 0);
    } else if o.kind != n.kind || o.parent_path@ != n.parent_path@ {
        assert(tail == seq![object_changed_view(package, path)]);
    } else if has_signature(n.kind) {
        let op = o.parameters@;
        let np = n.parameters@;
        law_parameter_classification_is_conservative(package, path, op, np);
        assert(tail == parameter_change_views(package, path, op, np));
        if same_parameters(op, np) {
        } else if !signature_classifiable(op, np) {
            assert(tail == seq![unknown_signature_view(package, path)]);
        } else {
            let a = became_optional_views(package, path, op, np);
            let b = added_optional_views(package, path, np.skip(op.len() as int));
            assert(tail == a + b);
            assert forall|j: int| #![trigger tail[j]] 0 <= j < tail.len() implies tail[j].kind != "object_added"@ by {
                if j < a.len() {
                    assert(tail[j] == a[j]);
                    lemma_became_optional_kind(package, path, op, np, j);
                } else {
                    assert(tail[j] == b[j - a.len()]);
                }
            }
        }
    } else {
        assert(tail.len() == 0);
    }
}

proof fn lemma_common_views_shape(
    package: Seq<char>,
    keys: Seq<Seq<char>>,
    old: Seq<SymbolSnapshot>,
    new: Seq<SymbolSnapshot>,
    breaking: Set<Seq<char>>,
)
    ensures
        forall|i: int|
            #![trigger common_views(package, keys, old, new, breaking)[i]]
            0 <= i < common_views(package, keys, old, new, breaking).len() ==> {
                &&& common_views(package, keys, old, new, breaking)[i].severity != Severity::Breaking
                &&& common_views(package, keys, old, new, breaking)[i].severity != Severity::Internal
                &&& common_views(package, keys, old, new, breaking)[i].kind != "object_added"@
                &&& !covered_by_breaking(common_views(package, keys, old, new, breaking)[i].symbol, breaking)
                &&& common_views(package, keys, old, new, breaking)[i].package == Some(package)
            },
    decreases keys.len(),
{
    if keys.len() > 0 {
        lemma_common_views_shape(package, keys.drop_last(), old, new, breaking);
        let head = common_views(package, keys.drop_last(), old, new, breaking);
        let path = keys.last();
        let tail = common_path_views(package, path, old, new, breaking);
        lemma_path_views_shape(package, path, old, new, breaking);
        let r = common_views(package, keys, old, new, breaking);
        assert(r == head + tail);
        assert forall|i: int| #![trigger r[i]] 0 <= i < r.len() implies {
            &&& r[i].severity != Severity::Breaking
            &&& r[i].severity != Severity::Internal
            &&& r[i].kind != "object_added"@
            &&& !covered_by_breaking(r[i].symbol, breaking)
            &&& r[i].package == Some(package)
        } by {
            if i < head.len() {
                assert(r[i] == head[i]);
            } else {
                assert(r[i] == tail[i - head.len()]);
            }
        }
    }
}

proof fn lemma_became_optional_kind(
    package: Seq<char>,
    symbol: Seq<char>,
    old: Seq<ParameterSnapshot>,
    new: Seq<ParameterSnapshot>,
    i: int,
)
    requires
        0 <= i < became_optional_views(package, symbol, old, new).len(),
    ensures
        became_optional_views(package, symbol, old, new)[i].kind == "parameter_became_optional"@,
    decreases old.len(),
{
    let head = became_optional_views(package, symbol, old.drop_last(), new);
    if i < head.len() {
        lemma_became_optional_kind(package, symbol, old.drop_last(), new, i);
    }
}

/// The snapshot classifier never reports a breaking or internal change; an added object whose ancestor was
/// added too is not reported; no change is reported at or below a path that has a breaking change;
/// and every change names `package`.
pub proof fn law_snapshot_classification(
    package: Seq<char>,
    old: Seq<SymbolSnapshot>,
    new: Seq<SymbolSnapshot>,
    breaking: Set<Seq<char>>,
)
    ensures
        forall|i: int|
            #![trigger snapshot_change_views(package, old, new, breaking)[i]]
            0 <= i < snapshot_change_views(package, old, new, breaking).len() ==> {
                let c = snapshot_change_views(package, old, new, breaking)[i];
                &&& c.severity != Severity::Breaking
                &&& c.severity != Severity::Internal
                &&& c.kind == "object_added"@ ==> !has_ancestor_in(c.symbol, added_path_set(old, new))
                &&& c.kind != "object_added"@ ==> !covered_by_breaking(c.symbol, breaking)
                &&& c.package == Some(package)
            },
{
    let added = added_path_set(old, new);
    let a = added_views(package, sorted_texts(added), added, new);
    let c = common_views(package, sorted_texts(common_path_set(old, new)), old, new, breaking);
    lemma_added_views_shape(package, sorted_texts(added), added, new);
    lemma_common_views_shape(package, sorted_texts(common_path_set(old, new)), old, new, breaking);
    let r = snapshot_change_views(package, old, new, breaking);
    assert forall|i: int| #![trigger r[i]] 0 <= i < r.len() implies r[i].severity != Severity::Breaking
        && r[i].severity != Severity::Internal && (
    r[i].kind == "object_added"@ ==> !has_ancestor_in(r[i].symbol, added)) && (r[i].kind
        != "object_added"@ ==> !covered_by_breaking(r[i].symbol, breaking)) && r[i].package == Some(package) by {
        if i < a.len() {
            assert(r[i] == a[i]);
        } else {
            assert(r[i] == c[i - a.len()]);
        }
    }
}

/// Ignore rules split the changes without losing or repeating any: the active and the
/// suppressed changes together are as many as the changes, every suppressed change matches
/// some rule, and no active change does.
pub proof fn law_ignore_rules_partition(rules: Seq<CompiledIgnoreRule>, changes: Seq<ApiChangeView>)
    ensures
        unmatched_changes(rules, changes).len() + matched_changes(rules, changes).len() == changes.len(),
        forall|i: int|
            0 <= i < matched_changes(rules, changes).len() ==> any_rule_matches(
                rules,
                #[trigger] matched_changes(rules, changes)[i],
            ),
        forall|i: int|
            0 <= i < unmatched_changes(rules, changes).len() ==> !any_rule_matches(
                rules,
                #[trigger] unmatched_changes(rules, changes)[i],
            ),
    decreases changes.len(),
{
    if changes.len() > 0 {
        law_ignore_rules_partition(rules, changes.drop_last());
        let m0 = matched_changes(rules, changes.drop_last());
        let u0 = unmatched_changes(rules, changes.drop_last());
        let m = matched_changes(rules, changes);
        let u = unmatched_changes(rules, changes);
        assert forall|i: int| 0 <= i < m.len() implies any_rule_matches(rules, #[trigger] m[i]) by {
            if i < m0.len() {
                assert(m[i] == m0[i]);
            }
        }
        assert forall|i: int| 0 <= i < u.len() implies !any_rule_matches(rules, #[trigger] u[i]) by {
            if i < u0.len() {
                assert(u[i] == u0[i]);
            }
        }
    }
}

/// The fail-on policies are ordered: a report that fails under `Breaking` fails under
/// `Unknown`, and nothing fails under `Never`.
pub proof fn law_fail_on_policies_are_ordered(report: ApiReport)
    ensures
        !spec_should_fail(report, FailOn::Never),
        spec_should_fail(report, FailOn::Breaking) ==> spec_should_fail(report, FailOn::Unknown),
        spec_should_fail(report, FailOn::Breaking) <==> report.summary.breaking > 0,
{
}

/// A policy given on the command line wins over the configuration; without either, a check
/// fails on breaking changes.
pub proof fn law_command_line_fail_on_wins(cli_fail_on: FailOn, config: Option<&ApibumpConfig>)
    ensures
        spec_effective_fail_on(Some(cli_fail_on), config) == cli_fail_on,
        spec_effective_fail_on(None, None) == FailOn::Breaking,
{
}


/// Lexicographic order on texts is a strict weak order.
pub proof fn lemma_seq_less_strict_weak()
    ensures
        strict_weak_order(|a: Seq<char>, b: Seq<char>| seq_less(a, b)),
{
    let less = |a: Seq<char>, b: Seq<char>| seq_less(a, b);
    assert forall|a: Seq<char>, b: Seq<char>| #[trigger] less(a, b) implies !less(b, a) by {
        lemma_seq_less_asymmetric(a, b);
    }
    assert forall|a: Seq<char>, b: Seq<char>, c: Seq<char>|
        !#[trigger] less(a, b) && !#[trigger] less(b, c) implies !less(a, c) by {
        lemma_seq_less_total(a, b);
        lemma_seq_less_total(b, c);
        if seq_less(a, c) {
            if a == b {
                lemma_seq_less_asymmetric(a, c);
            } else if b == c {
            } else {
                lemma_seq_less_transitive(c, b, a);
                lemma_seq_less_asymmetric(a, c);
            }
        }
    }
}

/// The order of changes by symbol, kind and message is a strict weak order.
pub proof fn lemma_change_order_strict_weak()
    ensures
        strict_weak_order(change_order()),
{
    let less = change_order();
    assert forall|a: ApiChangeView, b: ApiChangeView| #[trigger] less(a, b) implies !less(b, a) by {
        if seq_less(a.symbol, b.symbol) {
            lemma_seq_less_asymmetric(a.symbol, b.symbol);
        }
        lemma_seq_less_irreflexive(a.symbol);
        lemma_seq_less_irreflexive(a.kind);
        lemma_seq_less_irreflexive(a.message);
        if seq_less(a.kind, b.kind) {
            lemma_seq_less_asymmetric(a.kind, b.kind);
        }
        if seq_less(a.message, b.message) {
            lemma_seq_less_asymmetric(a.message, b.message);
        }
    }
    assert forall|a: ApiChangeView, b: ApiChangeView, c: ApiChangeView|
        !#[trigger] less(a, b) && !#[trigger] less(b, c) implies !less(a, c) by {
        lemma_seq_less_strict_weak();
        let sl = |x: Seq<char>, y: Seq<char>| seq_less(x, y);
        lemma_seq_less_total(a.symbol, b.symbol);
        lemma_seq_less_total(b.symbol, c.symbol);
        lemma_seq_less_total(a.kind, b.kind);
        lemma_seq_less_total(b.kind, c.kind);
        lemma_seq_less_total(a.message, b.message);
        lemma_seq_less_total(b.message, c.message);
        lemma_seq_less_irreflexive(a.symbol);
        lemma_seq_less_irreflexive(a.kind);
        lemma_seq_less_irreflexive(a.message);
        if less(a, c) {
            assert(!sl(a.symbol, b.symbol) && !sl(b.symbol, c.symbol) ==> !sl(a.symbol, c.symbol));
            assert(!sl(a.kind, b.kind) && !sl(b.kind, c.kind) ==> !sl(a.kind, c.kind));
            assert(!sl(a.message, b.message) && !sl(b.message, c.message) ==> !sl(a.message, c.message));
            if seq_less(b.symbol, a.symbol) {
                if seq_less(c.symbol, b.symbol) {
                    lemma_seq_less_transitive(c.symbol, b.symbol, a.symbol);
                    lemma_seq_less_asymmetric(c.symbol, a.symbol);
                } else {
                    lemma_seq_less_asymmetric(b.symbol, a.symbol);
                    lemma_seq_less_asymmetric(b.symbol, c.symbol);
                    if seq_less(a.symbol, c.symbol) {
                        lemma_seq_less_transitive(b.symbol, a.symbol, c.symbol);
                    }
                }
            }
            if seq_less(b.kind, a.kind) && a.symbol == b.symbol {
                if seq_less(c.kind, b.kind) {
                    lemma_seq_less_transitive(c.kind, b.kind, a.kind);
                    lemma_seq_less_asymmetric(c.kind, a.kind);
                } else {
                    lemma_seq_less_asymmetric(b.kind, a.kind);
                }
            }
            if seq_less(b.message, a.message) {
                if seq_less(c.message, b.message) {
                    lemma_seq_less_transitive(c.message, b.message, a.message);
                    lemma_seq_less_asymmetric(c.message, a.message);
                }
            }
        }
    }
}

/// The changes of a package, before ignore rules, come sorted by symbol, kind and message, and
/// they are exactly its breaking changes and its snapshot changes, none lost and none repeated.
pub proof fn law_package_changes_sorted_permutation(package: Seq<char>, result: PythonBackendResult)
    ensures
        sorted_by(package_changes_spec(package, result), change_order()),
        package_changes_spec(package, result).to_multiset() == (result.breaking_changes@.map_values(
            |c: BreakingChange| breaking_view(package, c),
        ) + snapshot_change_views(
            package,
            result.old_snapshot@,
            result.new_snapshot@,
            result.breaking_changes@.map_values(|c: BreakingChange| c.symbol@).to_set(),
        )).to_multiset(),
{
    let all = result.breaking_changes@.map_values(|c: BreakingChange| breaking_view(package, c))
        + snapshot_change_views(
        package,
        result.old_snapshot@,
        result.new_snapshot@,
        result.breaking_changes@.map_values(|c: BreakingChange| c.symbol@).to_set(),
    );
    lemma_change_order_strict_weak();
    law_sort_by_is_sorted(all, change_order());
    law_sort_by_is_permutation(all, change_order());
}

proof fn lemma_filtered_changes_come_from(rules: Seq<CompiledIgnoreRule>, changes: Seq<ApiChangeView>)
    ensures
        forall|i: int|
            0 <= i < unmatched_changes(rules, changes).len() ==> changes.contains(
                #[trigger] unmatched_changes(rules, changes)[i],
            ),
        forall|i: int|
            0 <= i < matched_changes(rules, changes).len() ==> changes.contains(
                #[trigger] matched_changes(rules, changes)[i],
            ),
    decreases changes.len(),
{
    if changes.len() > 0 {
        let d = changes.drop_last();
        lemma_filtered_changes_come_from(rules, d);
        let u0 = unmatched_changes(rules, d);
        let m0 = matched_changes(rules, d);
        let u = unmatched_changes(rules, changes);
        let m = matched_changes(rules, changes);
        assert forall|i: int| 0 <= i < u.len() implies changes.contains(#[trigger] u[i]) by {
            if i < u0.len() {
                assert(u[i] == u0[i]);
                let j = choose|j: int| 0 <= j < d.len() && d[j] == u0[i];
                assert(changes[j] == d[j]);
            } else {
                assert(u[i] == changes[changes.len() - 1]);
            }
        }
        assert forall|i: int| 0 <= i < m.len() implies changes.contains(#[trigger] m[i]) by {
            if i < m0.len() {
                assert(m[i] == m0[i]);
                let j = choose|j: int| 0 <= j < d.len() && d[j] == m0[i];
                assert(changes[j] == d[j]);
            } else {
                assert(m[i] == changes[changes.len() - 1]);
            }
        }
    }
}

/// Every change in a package's report, active or suppressed, names that package.
pub proof fn law_package_changes_name_the_package(
    package: SelectedPackageView,
    result: PythonBackendResult,
    changed_files: Seq<Seq<char>>,
    rules: Seq<CompiledIgnoreRule>,
)
    ensures
        forall|i: int|
            #![trigger package_active_spec(package, package_changes_spec(package.package, result), changed_files, rules)[i]]
            0 <= i < package_active_spec(
                package,
                package_changes_spec(package.package, result),
                changed_files,
                rules,
            ).len() ==> package_active_spec(
                package,
                package_changes_spec(package.package, result),
                changed_files,
                rules,
            )[i].package == Some(package.package),
        forall|i: int|
            #![trigger matched_changes(rules, package_changes_spec(package.package, result))[i]]
            0 <= i < matched_changes(rules, package_changes_spec(package.package, result)).len()
                ==> matched_changes(rules, package_changes_spec(package.package, result))[i].package
                == Some(package.package),
{
    broadcast use vstd::seq_lib::group_to_multiset_ensures;

    let p = package.package;
    let breaking_paths = result.breaking_changes@.map_values(|c: BreakingChange| c.symbol@).to_set();
    let b = result.breaking_changes@.map_values(|c: BreakingChange| breaking_view(p, c));
    let snap = snapshot_change_views(p, result.old_snapshot@, result.new_snapshot@, breaking_paths);
    let unsorted = b + snap;
    let all = package_changes_spec(p, result);
    law_snapshot_classification(p, result.old_snapshot@, result.new_snapshot@, breaking_paths);
    law_package_changes_sorted_permutation(p, result);
    assert forall|i: int| 0 <= i < all.len() implies (#[trigger] all[i]).package == Some(p) by {
        assert(all.contains(all[i]));
        assert(all.to_multiset().count(all[i]) > 0);
        assert(unsorted.contains(all[i]));
        let j = choose|j: int| 0 <= j < unsorted.len() && unsorted[j] == all[i];
        if j < b.len() {
            assert(unsorted[j] == b[j]);
        } else {
            assert(unsorted[j] == snap[j - b.len()]);
        }
    }
    lemma_filtered_changes_come_from(rules, all);
    let u = unmatched_changes(rules, all);
    let m = matched_changes(rules, all);
    assert forall|i: int| 0 <= i < u.len() implies (#[trigger] u[i]).package == Some(p) by {
        let j = choose|j: int| 0 <= j < all.len() && all[j] == u[i];
    }
    assert forall|i: int| 0 <= i < m.len() implies (#[trigger] m[i]).package == Some(p) by {
        let j = choose|j: int| 0 <= j < all.len() && all[j] == m[i];
    }
    let active = package_active_spec(package, all, changed_files, rules);
    assert forall|i: int| 0 <= i < active.len() implies (#[trigger] active[i]).package == Some(p) by {
        if i < u.len() {
            assert(active[i] == u[i]);
        }
    }
}

proof fn lemma_packages_changes_unknown(packages: Seq<PackageReport>)
    requires
        forall|i: int, j: int|
            0 <= i < packages.len() && 0 <= j < packages[i].changes@.len() ==> (
            #[trigger] packages[i].changes@[j]).severity == Severity::Unknown,
    ensures
        forall|k: int|
            0 <= k < packages_changes(packages).len() ==> (#[trigger] packages_changes(packages)[k]).severity
                == Severity::Unknown,
    decreases packages.len(),
{
    if packages.len() > 0 {
        let d = packages.drop_last();
        assert forall|i: int, j: int| 0 <= i < d.len() && 0 <= j < d[i].changes@.len() implies (
        #[trigger] d[i].changes@[j]).severity == Severity::Unknown by {
            assert(d[i] == packages[i]);
        }
        lemma_packages_changes_unknown(d);
        let last = packages[packages.len() - 1];
        let front = packages_changes(d);
        let all = packages_changes(packages);
        assert forall|k: int| 0 <= k < all.len() implies (#[trigger] all[k]).severity == Severity::Unknown by {
            if k < front.len() {
                assert(all[k] == front[k]);
            } else {
                let j = k - front.len();
                assert(all[k] == change_views(last.changes@)[j]);
                assert(change_views(last.changes@)[j] == last.changes@[j]@);
                assert(last.changes@[j].severity == Severity::Unknown);
            }
        }
    }
}

proof fn lemma_count_all_unknown(changes: Seq<ApiChange>)
    requires
        forall|k: int| 0 <= k < changes.len() ==> (#[trigger] changes[k]).severity == Severity::Unknown,
    ensures
        count_severity(changes, Severity::Breaking) == 0,
        count_severity(changes, Severity::Additive) == 0,
        count_severity(changes, Severity::Unknown) == changes.len(),
    decreases changes.len(),
{
    if changes.len() > 0 {
        let d = changes.drop_last();
        assert forall|k: int| 0 <= k < d.len() implies (#[trigger] d[k]).severity == Severity::Unknown by {
            assert(d[k] == changes[k]);
        }
        lemma_count_all_unknown(d);
        assert(changes[changes.len() - 1].severity == Severity::Unknown);
    }
}

/// What a failed backend gives on a check that is not strict, unknown changes only, never fails
/// the check under the default policy: a report over packages whose changes are all unknown
/// has no breaking change, asks for an unknown bump when it has any change, and fails under the
/// `Unknown` policy exactly then.
pub proof fn law_unknown_packages_do_not_fail_breaking(packages: Seq<PackageReport>, report: ApiReport)
    requires
        forall|i: int, j: int|
            0 <= i < packages.len() && 0 <= j < packages[i].changes@.len() ==> (
            #[trigger] packages[i].changes@[j]).severity == Severity::Unknown,
        change_views(report.changes@) == packages_changes(packages),
        change_views(report.suppressed_changes@) == packages_suppressed(packages),
        report_consistent(report),
    ensures
        !spec_should_fail(report, FailOn::Breaking),
        report.changes@.len() > 0 ==> report.recommendation == Recommendation::Unknown,
        spec_should_fail(report, FailOn::Unknown) <==> report.changes@.len() > 0,
{
    lemma_packages_changes_unknown(packages);
    let changes = report.changes@;
    assert(changes.len() == change_views(changes).len());
    assert forall|k: int| 0 <= k < changes.len() implies (#[trigger] changes[k]).severity
        == Severity::Unknown by {
        assert(change_views(changes)[k] == changes[k]@);
        assert(packages_changes(packages)[k].severity == Severity::Unknown);
    }
    lemma_count_all_unknown(changes);
}

/// Only breaking and unknown changes fail a check: under `Unknown` a report fails exactly when it
/// has a breaking or an unknown change, and under every policy a report with neither, however
/// many additive or internal changes it has, does not fail.
pub proof fn law_only_breaking_or_unknown_changes_fail(report: ApiReport, fail_on: FailOn)
    ensures
        spec_should_fail(report, FailOn::Unknown) <==> (report.summary.breaking > 0 || report.summary.unknown
            > 0),
        report.summary.breaking == 0 && report.summary.unknown == 0 ==> !spec_should_fail(report, fail_on),
{
}

/// A signature that does not keep the old parameter names in place at the front, and brings in
/// a name that no old parameter has, is reported as exactly one unknown `signature_changed`
/// change of the symbol.
pub proof fn law_inserted_parameters_are_unknown(
    package: Seq<char>,
    symbol: Seq<char>,
    old: Seq<ParameterSnapshot>,
    new: Seq<ParameterSnapshot>,
)
    requires
        !(old.len() <= new.len() && forall|i: int| 0 <= i < old.len() ==> #[trigger] old[i].name@ == new[i].name@),
        exists|j: int|
            #![trigger new[j]]
            0 <= j < new.len() && forall|k: int| 0 <= k < old.len() ==> #[trigger] old[k].name@ != new[j].name@,
    ensures
        parameter_change_views(package, symbol, old, new).len() == 1,
        parameter_change_views(package, symbol, old, new)[0].severity == Severity::Unknown,
        parameter_change_views(package, symbol, old, new)[0].kind == "signature_changed"@,
        parameter_change_views(package, symbol, old, new)[0].symbol == symbol,
        parameter_change_views(package, symbol, old, new)[0].message
            == "Signature changed in a non-breaking but unclassified way"@,
{
    let j = choose|j: int|
        #![trigger new[j]]
        0 <= j < new.len() && forall|k: int| 0 <= k < old.len() ==> #[trigger] old[k].name@ != new[j].name@;
    if same_parameters(old, new) {
        assert(same_parameter(old[j], new[j]));
        assert(old[j].name@ != new[j].name@);
    }
    assert(!has_parameter_named(old, new[j].name@));
    assert(!names_compatible(old, new));
}

proof fn lemma_matching_change_is_suppressed(rules: Seq<CompiledIgnoreRule>, changes: Seq<ApiChangeView>, k: int)
    requires
        0 <= k < changes.len(),
    ensures
        any_rule_matches(rules, changes[k]) ==> matched_changes(rules, changes).contains(changes[k]),
        !any_rule_matches(rules, changes[k]) ==> unmatched_changes(rules, changes).contains(changes[k]),
    decreases changes.len(),
{
    let d = changes.drop_last();
    let m = matched_changes(rules, changes);
    let u = unmatched_changes(rules, changes);
    if k < d.len() {
        assert(d[k] == changes[k]);
        lemma_matching_change_is_suppressed(rules, d, k);
        let m0 = matched_changes(rules, d);
        let u0 = unmatched_changes(rules, d);
        if any_rule_matches(rules, changes[k]) {
            let x = choose|x: int| 0 <= x < m0.len() && m0[x] == changes[k];
            assert(m[x] == m0[x]);
        } else {
            let x = choose|x: int| 0 <= x < u0.len() && u0[x] == changes[k];
            assert(u[x] == u0[x]);
        }
    } else {
        if any_rule_matches(rules, changes[k]) {
            assert(m[m.len() - 1] == changes[k]);
        } else {
            assert(u[u.len() - 1] == changes[k]);
        }
    }
}

/// Some position `i` of `rules` holds a rule that matches `change`.
pub open spec fn rule_index_matches(rules: Seq<CompiledIgnoreRule>, change: ApiChangeView) -> bool {
    exists|i: int| 0 <= i < rules.len() && #[trigger] rule_matches(rules[i], change)
}

/// A change is suppressed exactly when some rule, at any position, matches it: every change that
/// some rule matches is among the suppressed changes and not among the active ones; every
/// suppressed change is matched by some rule; and no rule matches an active change.
pub proof fn law_any_matching_rule_suppresses(rules: Seq<CompiledIgnoreRule>, changes: Seq<ApiChangeView>)
    ensures
        forall|k: int, i: int|
            0 <= k < changes.len() && 0 <= i < rules.len() && #[trigger] rule_matches(rules[i], changes[k])
                ==> matched_changes(rules, changes).contains(changes[k]) && !unmatched_changes(
                rules,
                changes,
            ).contains(changes[k]),
        forall|j: int|
            0 <= j < matched_changes(rules, changes).len() ==> rule_index_matches(
                rules,
                #[trigger] matched_changes(rules, changes)[j],
            ),
        forall|j: int, i: int|
            0 <= j < unmatched_changes(rules, changes).len() && 0 <= i < rules.len() ==> !#[trigger] rule_matches(
                rules[i],
                unmatched_changes(rules, changes)[j],
            ),
{
    law_ignore_rules_partition(rules, changes);
    let m = matched_changes(rules, changes);
    let u = unmatched_changes(rules, changes);
    assert forall|k: int, i: int|
        0 <= k < changes.len() && 0 <= i < rules.len() && #[trigger] rule_matches(rules[i], changes[k]) implies m.contains(
        changes[k]) && !u.contains(changes[k]) by {
        assert(any_rule_matches(rules, changes[k]));
        lemma_matching_change_is_suppressed(rules, changes, k);
        if u.contains(changes[k]) {
            let x = choose|x: int| 0 <= x < u.len() && u[x] == changes[k];
            assert(!any_rule_matches(rules, u[x]));
        }
    }
    assert forall|j: int| 0 <= j < m.len() implies rule_index_matches(rules, #[trigger] m[j]) by {
        assert(any_rule_matches(rules, m[j]));
        let i = choose|i: int| 0 <= i < rules.len() && #[trigger] rule_matches(rules[i], m[j]);
        assert(rules[i] == rules[i]);
    }
    assert forall|j: int, i: int| 0 <= j < u.len() && 0 <= i < rules.len() implies !#[trigger] rule_matches(
        rules[i],
        u[j],
    ) by {
        assert(!any_rule_matches(rules, u[j]));
    }
}

/// An internal change stands alone: where any active change of a package report is internal
/// (the `internal_only` change that records files changed without a public API change), every
/// active change is internal, so no breaking, additive or unknown change sits beside it; and that
/// internal change is the `internal_only` change of the package.
pub proof fn law_internal_only_stands_alone(
    package: SelectedPackageView,
    result: PythonBackendResult,
    changed_files: Seq<Seq<char>>,
    rules: Seq<CompiledIgnoreRule>,
)
    ensures
        (exists|i: int|
            0 <= i < package_active_spec(package, package_changes_spec(package.package, result), changed_files, rules).len()
                && (#[trigger] package_active_spec(
                package,
                package_changes_spec(package.package, result),
                changed_files,
                rules,
            )[i]).severity == Severity::Internal) ==> forall|j: int|
            0 <= j < package_active_spec(package, package_changes_spec(package.package, result), changed_files, rules).len()
                ==> (#[trigger] package_active_spec(
                package,
                package_changes_spec(package.package, result),
                changed_files,
                rules,
            )[j]).severity == Severity::Internal,
        forall|j: int|
            0 <= j < package_active_spec(package, package_changes_spec(package.package, result), changed_files, rules).len()
                && (#[trigger] package_active_spec(
                package,
                package_changes_spec(package.package, result),
                changed_files,
                rules,
            )[j]).severity == Severity::Internal ==> package_active_spec(
                package,
                package_changes_spec(package.package, result),
                changed_files,
                rules,
            )[j].kind == "internal_only"@ && package_active_spec(
                package,
                package_changes_spec(package.package, result),
                changed_files,
                rules,
            )[j].symbol == package.package,
{
    broadcast use vstd::seq_lib::group_to_multiset_ensures;

    let p = package.package;
    let breaking_paths = result.breaking_changes@.map_values(|c: BreakingChange| c.symbol@).to_set();
    let b = result.breaking_changes@.map_values(|c: BreakingChange| breaking_view(p, c));
    let snap = snapshot_change_views(p, result.old_snapshot@, result.new_snapshot@, breaking_paths);
    let unsorted = b + snap;
    let all = package_changes_spec(p, result);
    law_snapshot_classification(p, result.old_snapshot@, result.new_snapshot@, breaking_paths);
    law_package_changes_sorted_permutation(p, result);
    assert forall|i: int| 0 <= i < all.len() implies (#[trigger] all[i]).severity != Severity::Internal by {
        assert(all.contains(all[i]));
        assert(all.to_multiset().count(all[i]) > 0);
        assert(unsorted.contains(all[i]));
        let j = choose|j: int| 0 <= j < unsorted.len() && unsorted[j] == all[i];
        if j < b.len() {
            assert(unsorted[j] == b[j]);
        } else {
            assert(unsorted[j] == snap[j - b.len()]);
        }
    }
    lemma_filtered_changes_come_from(rules, all);
    let u = unmatched_changes(rules, all);
    assert forall|i: int| 0 <= i < u.len() implies (#[trigger] u[i]).severity != Severity::Internal by {
        let j = choose|j: int| 0 <= j < all.len() && all[j] == u[i];
    }
    let active = package_active_spec(package, all, changed_files, rules);
    if package.changed && only_internal(u) && roots_changed(package.roots, changed_files) {
        assert(u.len() == 0) by {
            if u.len() > 0 {
                assert(u[0].severity == Severity::Internal);
            }
        }
        assert(active == seq![internal_only_view(p)]);
        reveal_strlit("internal_only");
    } else {
        assert(active == u);
    }
}

/// `q` with `x` put in its place by the order of texts; `q` itself where it holds `x` already.
spec fn sorted_insert(q: Seq<Seq<char>>, x: Seq<char>) -> Seq<Seq<char>>
    decreases q.len(),
{
    if q.len() == 0 {
        seq![x]
    } else if seq_less(q.last(), x) {
        q.push(x)
    } else if q.last() == x {
        q
    } else {
        sorted_insert(q.drop_last(), x).push(q.last())
    }
}

proof fn lemma_sorted_insert(q: Seq<Seq<char>>, x: Seq<char>)
    requires
        strictly_sorted(q),
    ensures
        strictly_sorted(sorted_insert(q, x)),
        forall|y: Seq<char>| #[trigger] sorted_insert(q, x).contains(y) <==> (q.contains(y) || y == x),
    decreases q.len(),
{
    let r = sorted_insert(q, x);
    if q.len() == 0 {
        assert(r == seq![x]);
        assert forall|y: Seq<char>| #[trigger] r.contains(y) <==> (q.contains(y) || y == x) by {
            if r.contains(y) {
                let k = choose|k: int| 0 <= k < r.len() && r[k] == y;
            }
            if y == x {
                assert(r[0] == x);
            }
        }
    } else {
        let l = q.last();
        let d = q.drop_last();
        assert(strictly_sorted(d)) by {
            assert forall|i: int, j: int| 0 <= i < j < d.len() implies seq_less(#[trigger] d[i], #[trigger] d[j]) by {
                assert(d[i] == q[i] && d[j] == q[j]);
            }
        }
        assert(q =~= d.push(l));
        if seq_less(l, x) {
            assert forall|i: int, j: int| 0 <= i < j < r.len() implies seq_less(#[trigger] r[i], #[trigger] r[j]) by {
                if j == r.len() - 1 {
                    if i < q.len() - 1 {
                        assert(seq_less(q[i], l));
                        lemma_seq_less_transitive(q[i], l, x);
                    }
                } else {
                    assert(r[i] == q[i] && r[j] == q[j]);
                }
            }
            assert forall|y: Seq<char>| #[trigger] r.contains(y) <==> (q.contains(y) || y == x) by {
                if r.contains(y) {
                    let k = choose|k: int| 0 <= k < r.len() && r[k] == y;
                    if k < q.len() {
                        assert(q[k] == y);
                    }
                }
                if q.contains(y) {
                    let k = choose|k: int| 0 <= k < q.len() && q[k] == y;
                    assert(r[k] == y);
                }
                if y == x {
                    assert(r[r.len() - 1] == x);
                }
            }
        } else if l == x {
            assert forall|y: Seq<char>| #[trigger] r.contains(y) <==> (q.contains(y) || y == x) by {
                if y == x {
                    assert(q[q.len() - 1] == x);
                }
            }
        } else {
            lemma_seq_less_total(l, x);
            assert(seq_less(x, l));
            lemma_sorted_insert(d, x);
            let r0 = sorted_insert(d, x);
            assert(r == r0.push(l));
            assert forall|k: int| 0 <= k < r0.len() implies seq_less(#[trigger] r0[k], l) by {
                assert(r0.contains(r0[k]));
                if r0[k] != x {
                    assert(d.contains(r0[k]));
                    let m = choose|m: int| 0 <= m < d.len() && d[m] == r0[k];
                    assert(q[m] == d[m]);
                    assert(seq_less(q[m], q[q.len() - 1]));
                }
            }
            assert forall|i: int, j: int| 0 <= i < j < r.len() implies seq_less(#[trigger] r[i], #[trigger] r[j]) by {
                assert(r[i] == r0[i]);
                if j == r.len() - 1 {
                    assert(r[j] == l);
                } else {
                    assert(r[j] == r0[j]);
                }
            }
            assert forall|y: Seq<char>| #[trigger] r.contains(y) <==> (q.contains(y) || y == x) by {
                if r.contains(y) {
                    let k = choose|k: int| 0 <= k < r.len() && r[k] == y;
                    if k < r0.len() {
                        assert(r0[k] == y);
                        assert(r0.contains(y));
                        if d.contains(y) {
                            let m = choose|m: int| 0 <= m < d.len() && d[m] == y;
                            assert(q[m] == y);
                        }
                    } else {
                        assert(q[q.len() - 1] == y);
                    }
                }
                if q.contains(y) {
                    let k = choose|k: int| 0 <= k < q.len() && q[k] == y;
                    if k < d.len() {
                        assert(d[k] == y);
                        assert(r0.contains(y));
                        let m = choose|m: int| 0 <= m < r0.len() && r0[m] == y;
                        assert(r[m] == y);
                    } else {
                        assert(r[r.len() - 1] == y);
                    }
                }
                if y == x {
                    assert(r0.contains(x));
                    let m = choose|m: int| 0 <= m < r0.len() && r0[m] == x;
                    assert(r[m] == x);
                }
            }
        }
    }
}

/// The paths that both snapshots have, sorted, each once.
spec fn sorted_common_paths(old: Seq<SymbolSnapshot>, new: Seq<SymbolSnapshot>) -> Seq<Seq<char>>
    decreases old.len(),
{
    if old.len() == 0 {
        Seq::empty()
    } else {
        let r = sorted_common_paths(old.drop_last(), new);
        if has_symbol_path(new, old.last().path@) {
            sorted_insert(r, old.last().path@)
        } else {
            r
        }
    }
}

proof fn lemma_sorted_common_paths(old: Seq<SymbolSnapshot>, new: Seq<SymbolSnapshot>)
    ensures
        strictly_sorted(sorted_common_paths(old, new)),
        forall|y: Seq<char>|
            #[trigger] sorted_common_paths(old, new).contains(y) <==> (has_symbol_path(old, y) && has_symbol_path(
                new,
                y,
            )),
    decreases old.len(),
{
    let r = sorted_common_paths(old, new);
    if old.len() == 0 {
        assert forall|y: Seq<char>| #[trigger] r.contains(y) <==> (has_symbol_path(old, y) && has_symbol_path(new, y)) by {
        }
    } else {
        let d = old.drop_last();
        let x = old.last().path@;
        lemma_sorted_common_paths(d, new);
        let r0 = sorted_common_paths(d, new);
        if has_symbol_path(new, x) {
            lemma_sorted_insert(r0, x);
        }
        assert forall|y: Seq<char>| #[trigger] r.contains(y) <==> (has_symbol_path(old, y) && has_symbol_path(new, y)) by {
            if has_symbol_path(d, y) {
                let k = choose|k: int| 0 <= k < d.len() && #[trigger] d[k].path@ == y;
                assert(old[k] == d[k]);
            }
            if has_symbol_path(old, y) {
                let k = choose|k: int| 0 <= k < old.len() && #[trigger] old[k].path@ == y;
                if k < d.len() {
                    assert(d[k] == old[k]);
                } else {
                    assert(y == x);
                }
            }
        }
    }
}

proof fn lemma_common_views_append(
    package: Seq<char>,
    a: Seq<Seq<char>>,
    b: Seq<Seq<char>>,
    old: Seq<SymbolSnapshot>,
    new: Seq<SymbolSnapshot>,
    breaking: Set<Seq<char>>,
)
    ensures
        common_views(package, a + b, old, new, breaking) == common_views(package, a, old, new, breaking)
            + common_views(package, b, old, new, breaking),
    decreases b.len(),
{
    if b.len() == 0 {
        assert(a + b =~= a);
        assert(common_views(package, b, old, new, breaking) =~= Seq::<ApiChangeView>::empty());
        assert(common_views(package, a, old, new, breaking) + Seq::<ApiChangeView>::empty() =~= common_views(
            package,
            a,
            old,
            new,
            breaking,
        ));
    } else {
        lemma_common_views_append(package, a, b.drop_last(), old, new, breaking);
        assert((a + b).drop_last() =~= a + b.drop_last());
        assert((a + b).last() == b.last());
    }
}

/// The parameters of a function, method or alias that both snapshots have are compared: where
/// the path is not at or below a breaking change and the symbol kept its kind and parent, the
/// snapshot changes hold, one after the other, exactly the changes that its old and new
/// parameters amount to.
pub proof fn law_common_callables_are_compared(
    package: Seq<char>,
    old: Seq<SymbolSnapshot>,
    new: Seq<SymbolSnapshot>,
    breaking: Set<Seq<char>>,
    path: Seq<char>,
)
    requires
        has_symbol_path(old, path),
        has_symbol_path(new, path),
        !breaking.contains(path),
        !has_ancestor_in(path, breaking),
        symbol_at(old, path).kind == symbol_at(new, path).kind,
        symbol_at(old, path).parent_path@ == symbol_at(new, path).parent_path@,
        symbol_at(new, path).kind == SymbolKind::Function || symbol_at(new, path).kind == SymbolKind::Method
            || symbol_at(new, path).kind == SymbolKind::Alias,
    ensures
        exists|k: int|
            0 <= k && k + parameter_change_views(
                package,
                path,
                symbol_at(old, path).parameters@,
                symbol_at(new, path).parameters@,
            ).len() <= snapshot_change_views(package, old, new, breaking).len() && #[trigger] snapshot_change_views(
                package,
                old,
                new,
                breaking,
            ).subrange(
                k,
                k + parameter_change_views(
                    package,
                    path,
                    symbol_at(old, path).parameters@,
                    symbol_at(new, path).parameters@,
                ).len(),
            ) == parameter_change_views(
                package,
                path,
                symbol_at(old, path).parameters@,
                symbol_at(new, path).parameters@,
            ),
{
    let pv = parameter_change_views(package, path, symbol_at(old, path).parameters@, symbol_at(new, path).parameters@);
    let common = common_path_set(old, new);
    lemma_sorted_common_paths(old, new);
    let q = sorted_common_paths(old, new);
    assert forall|x: Seq<char>| q.contains(x) <==> common.contains(x) by {
        assert(q.contains(x) <==> (has_symbol_path(old, x) && has_symbol_path(new, x)));
    }
    lemma_sorted_texts(q, common);
    let keys = sorted_texts(common);
    assert(keys == q);
    assert(keys.contains(path));
    let i = choose|i: int| 0 <= i < keys.len() && keys[i] == path;
    let front = keys.take(i);
    let back = keys.skip(i + 1);
    assert(keys =~= front + (seq![path] + back));
    lemma_common_views_append(package, front, seq![path] + back, old, new, breaking);
    lemma_common_views_append(package, seq![path], back, old, new, breaking);
    assert(seq![path].drop_last() =~= Seq::<Seq<char>>::empty());
    assert(seq![path].last() == path);
    assert(common_views(package, Seq::<Seq<char>>::empty(), old, new, breaking) =~= Seq::<ApiChangeView>::empty());
    assert(common_views(package, seq![path], old, new, breaking) =~= common_path_views(package, path, old, new, breaking));
    assert(!covered_by_breaking(path, breaking));
    assert(has_signature(symbol_at(new, path).kind));
    assert(common_path_views(package, path, old, new, breaking) == pv);
    let added = added_path_set(old, new);
    let a = added_views(package, sorted_texts(added), added, new);
    let f = common_views(package, front, old, new, breaking);
    let bv = common_views(package, back, old, new, breaking);
    let snap = snapshot_change_views(package, old, new, breaking);
    assert(snap == a + (f + (pv + bv)));
    let k: int = (a.len() + f.len()) as int;
    assert(snap.subrange(k, k + pv.len() as int) =~= pv);
}

} // verus!
