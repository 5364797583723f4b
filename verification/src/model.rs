use vstd::prelude::*;

use crate::text::{opt_str, opt_string_copy};

verus! {

/// The version of the report schema.
pub const SCHEMA_VERSION: &'static str = "0.1";

/// How a single API change affects the consumers of a package.
#[derive(Debug, Clone, Copy, PartialEq, Eq, Structural)]
pub enum Severity {
    Breaking,
    Additive,
    Internal,
    Unknown,
}

/// The SemVer bump that a set of changes calls for.
#[derive(Debug, Clone, Copy, PartialEq, Eq, Structural)]
pub enum Recommendation {
    Major,
    Minor,
    Patch,
    Unknown,
}

pub open spec fn severity_text(severity: Severity) -> Seq<char> {
    match severity {
        Severity::Breaking => "breaking"@,
        Severity::Additive => "additive"@,
        Severity::Internal => "internal"@,
        Severity::Unknown => "unknown"@,
    }
}

pub open spec fn recommendation_text(recommendation: Recommendation) -> Seq<char> {
    match recommendation {
        Recommendation::Major => "major"@,
        Recommendation::Minor => "minor"@,
        Recommendation::Patch => "patch"@,
        Recommendation::Unknown => "unknown"@,
    }
}

impl Severity {
    /// The lower-case name under which a severity is shown and serialised.
    pub fn label(&self) -> (r: &'static str)
        ensures
            r@ == severity_text(*self),
    {
        match self {
            Severity::Breaking => "breaking",
            Severity::Additive => "additive",
            Severity::Internal => "internal",
            Severity::Unknown => "unknown",
        }
    }
}

impl Recommendation {
    /// The lower-case name under which a recommendation is shown and serialised.
    pub fn label(&self) -> (r: &'static str)
        ensures
            r@ == recommendation_text(*self),
    {
        match self {
            Recommendation::Major => "major",
            Recommendation::Minor => "minor",
            Recommendation::Patch => "patch",
            Recommendation::Unknown => "unknown",
        }
    }
}

/// Counts of active changes per severity, plus the number of suppressed changes.
#[derive(Debug, Clone, PartialEq, Eq, Default)]
pub struct Summary {
    pub breaking: usize,
    pub additive: usize,
    pub internal: usize,
    pub unknown: usize,
    pub suppressed: usize,
}

/// One detected change of a public API.
#[derive(Debug, Clone, PartialEq, Eq)]
pub struct ApiChange {
    pub package: Option<String>,
    pub severity: Severity,
    pub kind: String,
    pub symbol: String,
    pub file: Option<String>,
    pub line: Option<usize>,
    pub message: String,
    pub backend: String,
}

/// The mathematical content of an [`ApiChange`].
pub ghost struct ApiChangeView {
    pub package: Option<Seq<char>>,
    pub severity: Severity,
    pub kind: Seq<char>,
    pub symbol: Seq<char>,
    pub file: Option<Seq<char>>,
    pub line: Option<usize>,
    pub message: Seq<char>,
    pub backend: Seq<char>,
}

impl View for ApiChange {
    type V = ApiChangeView;

    open spec fn view(&self) -> ApiChangeView {
        ApiChangeView {
            package: opt_str(self.package),
            severity: self.severity,
            kind: self.kind@,
            symbol: self.symbol@,
            file: opt_str(self.file),
            line: self.line,
            message: self.message@,
            backend: self.backend@,
        }
    }
}

impl ApiChange {
    /// A field-by-field copy.
    pub fn copy(&self) -> (r: ApiChange)
        ensures
            r@ == self@,
    {
        ApiChange {
            package: opt_string_copy(&self.package),
            severity: self.severity,
            kind: self.kind.clone(),
            symbol: self.symbol.clone(),
            file: opt_string_copy(&self.file),
            line: self.line,
            message: self.message.clone(),
            backend: self.backend.clone(),
        }
    }
}

/// A note about how the check ran.
#[derive(Debug, Clone, PartialEq, Eq)]
pub struct Diagnostic {
    pub level: String,
    pub message: String,
}

pub ghost struct DiagnosticView {
    pub level: Seq<char>,
    pub message: Seq<char>,
}

impl View for Diagnostic {
    type V = DiagnosticView;

    open spec fn view(&self) -> DiagnosticView {
        DiagnosticView { level: self.level@, message: self.message@ }
    }
}

impl Diagnostic {
    /// A field-by-field copy.
    pub fn copy(&self) -> (r: Diagnostic)
        ensures
            r@ == self@,
    {
        Diagnostic { level: self.level.clone(), message: self.message.clone() }
    }
}

pub open spec fn change_views(changes: Seq<ApiChange>) -> Seq<ApiChangeView> {
    changes.map_values(|c: ApiChange| c@)
}

pub open spec fn diagnostic_views(diagnostics: Seq<Diagnostic>) -> Seq<DiagnosticView> {
    diagnostics.map_values(|d: Diagnostic| d@)
}

/// The number of changes in `changes` that have the given severity.
pub open spec fn count_severity(changes: Seq<ApiChange>, severity: Severity) -> nat
    decreases changes.len(),
{
    if changes.len() == 0 {
        0
    } else {
        count_severity(changes.drop_last(), severity) + if changes.last().severity == severity {
            1nat
        } else {
            0nat
        }
    }
}

/// `summary` counts the severities of `changes` and records `suppressed` suppressed changes.
pub open spec fn summarizes(summary: Summary, changes: Seq<ApiChange>, suppressed: nat) -> bool {
    &&& summary.breaking == count_severity(changes, Severity::Breaking)
    &&& summary.additive == count_severity(changes, Severity::Additive)
    &&& summary.internal == count_severity(changes, Severity::Internal)
    &&& summary.unknown == count_severity(changes, Severity::Unknown)
    &&& summary.suppressed == suppressed
}

/// The bump that a summary calls for: any breaking change asks for a major release; otherwise
/// any unknown change leaves the bump unknown; otherwise any additive change asks for a minor
/// release; otherwise a patch release suffices.
pub open spec fn spec_recommend(summary: Summary) -> Recommendation {
    if summary.breaking > 0 {
        Recommendation::Major
    } else if summary.unknown > 0 {
        Recommendation::Unknown
    } else if summary.additive > 0 {
        Recommendation::Minor
    } else {
        Recommendation::Patch
    }
}

pub proof fn lemma_count_severity_bounded(changes: Seq<ApiChange>, severity: Severity)
    ensures
        count_severity(changes, severity) <= changes.len(),
    decreases changes.len(),
{
    if changes.len() > 0 {
        lemma_count_severity_bounded(changes.drop_last(), severity);
    }
}

pub proof fn lemma_count_severity_append(a: Seq<ApiChange>, b: Seq<ApiChange>, severity: Severity)
    ensures
        count_severity(a + b, severity) == count_severity(a, severity) + count_severity(b, severity),
    decreases b.len(),
{
    if b.len() == 0 {
        assert(a + b =~= a);
    } else {
        lemma_count_severity_append(a, b.drop_last(), severity);
        assert((a + b).drop_last() =~= a + b.drop_last());
    }
}

impl Summary {
    /// Counts the changes of each severity; nothing is suppressed.
    pub fn from_changes(changes: &[ApiChange]) -> (summary: Summary)
        ensures
            summarizes(summary, changes@, 0),
    {
        let mut summary = Summary { breaking: 0, additive: 0, internal: 0, unknown: 0, suppressed: 0 };
        let n = changes.len();
        for i in 0..n
            invariant
                n == changes@.len(),
                summarizes(summary, changes@.take(i as int), 0),
        {
            proof {
                assert(changes@.take(i + 1).drop_last() =~= changes@.take(i as int));
                lemma_count_severity_bounded(changes@.take(i as int), Severity::Breaking);
                lemma_count_severity_bounded(changes@.take(i as int), Severity::Additive);
                lemma_count_severity_bounded(changes@.take(i as int), Severity::Internal);
                lemma_count_severity_bounded(changes@.take(i as int), Severity::Unknown);
            }
            match changes[i].severity {
                Severity::Breaking => summary.breaking = summary.breaking + 1,
                Severity::Additive => summary.additive = summary.additive + 1,
                Severity::Internal => summary.internal = summary.internal + 1,
                Severity::Unknown => summary.unknown = summary.unknown + 1,
            }
        }
        assert(changes@.take(n as int) =~= changes@);
        summary
    }
}

/// The recommended bump for a summary.
pub fn recommend(summary: &Summary) -> (r: Recommendation)
    ensures
        r == spec_recommend(*summary),
{
    if summary.breaking > 0 {
        Recommendation::Major
    } else if summary.unknown > 0 {
        Recommendation::Unknown
    } else if summary.additive > 0 {
        Recommendation::Minor
    } else {
        Recommendation::Patch
    }
}


/// The changes of one package, split into those that count and those that ignore rules suppressed.
#[derive(Debug, Clone, PartialEq, Eq)]
pub struct PackageReport {
    pub package: String,
    pub recommendation: Recommendation,
    pub summary: Summary,
    pub changes: Vec<ApiChange>,
    pub suppressed_changes: Vec<ApiChange>,
}

/// The whole report of one check.
#[derive(Debug, Clone, PartialEq, Eq)]
pub struct ApiReport {
    pub schema_version: String,
    pub recommendation: Recommendation,
    pub summary: Summary,
    pub packages: Vec<PackageReport>,
    pub changes: Vec<ApiChange>,
    pub suppressed_changes: Vec<ApiChange>,
    pub diagnostics: Vec<Diagnostic>,
}

/// The active changes of all packages, package after package.
pub open spec fn packages_changes(packages: Seq<PackageReport>) -> Seq<ApiChangeView>
    decreases packages.len(),
{
    if packages.len() == 0 {
        Seq::empty()
    } else {
        packages_changes(packages.drop_last()) + change_views(packages.last().changes@)
    }
}

/// The suppressed changes of all packages, package after package.
pub open spec fn packages_suppressed(packages: Seq<PackageReport>) -> Seq<ApiChangeView>
    decreases packages.len(),
{
    if packages.len() == 0 {
        Seq::empty()
    } else {
        packages_suppressed(packages.drop_last()) + change_views(packages.last().suppressed_changes@)
    }
}

/// A package report is consistent: its summary counts its changes and its suppressed changes,
/// and its recommendation follows from the summary.
pub open spec fn package_report_consistent(report: PackageReport) -> bool {
    &&& summarizes(report.summary, report.changes@, report.suppressed_changes@.len())
    &&& report.recommendation == spec_recommend(report.summary)
}

/// A report is consistent: its summary counts its changes and its suppressed changes,
/// its recommendation follows from the summary, and it carries the schema version.
pub open spec fn report_consistent(report: ApiReport) -> bool {
    &&& summarizes(report.summary, report.changes@, report.suppressed_changes@.len())
    &&& report.recommendation == spec_recommend(report.summary)
    &&& report.schema_version@ == SCHEMA_VERSION@
}

pub proof fn lemma_count_severity_views(a: Seq<ApiChange>, b: Seq<ApiChange>, severity: Severity)
    requires
        change_views(a) == change_views(b),
    ensures
        count_severity(a, severity) == count_severity(b, severity),
    decreases a.len(),
{
    assert(a.len() == change_views(a).len());
    assert(b.len() == change_views(b).len());
    if a.len() > 0 {
        assert(change_views(a.drop_last()) =~= change_views(a).drop_last());
        assert(change_views(b.drop_last()) =~= change_views(b).drop_last());
        assert(a.last()@ == change_views(a)[a.len() - 1]);
        assert(b.last()@ == change_views(b)[b.len() - 1]);
        lemma_count_severity_views(a.drop_last(), b.drop_last(), severity);
    }
}

/// Appends copies of `src` to `dst`.
pub fn extend_with_copies(dst: &mut Vec<ApiChange>, src: &Vec<ApiChange>)
    ensures
        change_views(final(dst)@) == change_views(old(dst)@) + change_views(src@),
{
    let ghost start = change_views(dst@);
    let n = src.len();
    for i in 0..n
        invariant
            n == src@.len(),
            change_views(dst@) == start + change_views(src@.take(i as int)),
    {
        let c = src[i].copy();
        let ghost before = dst@;
        dst.push(c);
        proof {
            assert(change_views(dst@) =~= change_views(before).push(src@[i as int]@));
            assert(change_views(src@.take(i + 1)) =~= change_views(src@.take(i as int)).push(src@[i as int]@));
        }
    }
    assert(src@.take(n as int) =~= src@);
}

impl PackageReport {
    /// The report of one package: its summary counts `changes` and `suppressed_changes`, and its
    /// recommendation follows from that summary.
    pub fn new(package: &str, changes: Vec<ApiChange>, suppressed_changes: Vec<ApiChange>) -> (r: PackageReport)
        ensures
            r.package@ == package@,
            r.changes@ == changes@,
            r.suppressed_changes@ == suppressed_changes@,
            package_report_consistent(r),
    {
        let mut summary = Summary::from_changes(changes.as_slice());
        summary.suppressed = suppressed_changes.len();
        let recommendation = recommend(&summary);
        PackageReport {
            package: String::from_str(package),
            recommendation,
            summary,
            changes,
            suppressed_changes,
        }
    }
}

impl ApiReport {
    /// A report over `changes`, with no package breakdown and nothing suppressed.
    pub fn new(changes: Vec<ApiChange>, diagnostics: Vec<Diagnostic>) -> (r: ApiReport)
        ensures
            r.changes@ == changes@,
            r.diagnostics@ == diagnostics@,
            r.packages@.len() == 0,
            r.suppressed_changes@.len() == 0,
            report_consistent(r),
    {
        let summary = Summary::from_changes(changes.as_slice());
        let recommendation = recommend(&summary);
        ApiReport {
            schema_version: String::from_str(SCHEMA_VERSION),
            recommendation,
            summary,
            packages: Vec::new(),
            changes,
            suppressed_changes: Vec::new(),
            diagnostics,
        }
    }

    /// The report of several packages: their changes and suppressed changes, package after
    /// package, counted together.
    pub fn from_packages(packages: Vec<PackageReport>, diagnostics: Vec<Diagnostic>) -> (r: ApiReport)
        ensures
            r.packages@ == packages@,
            change_views(r.changes@) == packages_changes(packages@),
            change_views(r.suppressed_changes@) == packages_suppressed(packages@),
            r.diagnostics@ == diagnostics@,
            report_consistent(r),
    {
        let mut changes: Vec<ApiChange> = Vec::new();
        let mut suppressed_changes: Vec<ApiChange> = Vec::new();
        let n = packages.len();
        for i in 0..n
            invariant
                n == packages@.len(),
                change_views(changes@) == packages_changes(packages@.take(i as int)),
                change_views(suppressed_changes@) == packages_suppressed(packages@.take(i as int)),
        {
            proof {
                assert(packages@.take(i + 1).drop_last() =~= packages@.take(i as int));
            }
            extend_with_copies(&mut changes, &packages[i].changes);
            extend_with_copies(&mut suppressed_changes, &packages[i].suppressed_changes);
        }
        assert(packages@.take(n as int) =~= packages@);
        let mut summary = Summary::from_changes(changes.as_slice());
        proof {
            assert(suppressed_changes@.len() == change_views(suppressed_changes@).len());
        }
        summary.suppressed = suppressed_changes.len();
        let recommendation = recommend(&summary);
        ApiReport {
            schema_version: String::from_str(SCHEMA_VERSION),
            recommendation,
            summary,
            packages,
            changes,
            suppressed_changes,
            diagnostics,
        }
    }

    /// The report of a failed backend run: one unknown `backend_error` change that carries
    /// `message`, and an error diagnostic that names the backend.
    pub fn backend_unknown(message: &str, backend: &str) -> (r: ApiReport)
        ensures
            change_views(r.changes@) == seq![backend_error_change(None, message@, backend@)],
            diagnostic_views(r.diagnostics@) == seq![DiagnosticView {
                level: "error"@,
                message: backend@ + " backend failed"@,
            }],
            r.packages@.len() == 0,
            r.suppressed_changes@.len() == 0,
            report_consistent(r),
            r.summary.unknown == 1,
            r.summary.breaking == 0,
            r.recommendation == Recommendation::Unknown,
    {
        let change = ApiChange {
            package: None,
            severity: Severity::Unknown,
            kind: String::from_str("backend_error"),
            symbol: String::from_str("<backend>"),
            file: None,
            line: None,
            message: String::from_str(message),
            backend: String::from_str(backend),
        };
        let mut text = String::from_str(backend);
        text.append(" backend failed");
        let diagnostic = Diagnostic { level: String::from_str("error"), message: text };
        let mut changes = Vec::new();
        changes.push(change);
        let mut diagnostics = Vec::new();
        diagnostics.push(diagnostic);
        proof {
            assert(change_views(changes@) =~= seq![backend_error_change(None, message@, backend@)]);
            assert(diagnostic_views(diagnostics@) =~= seq![DiagnosticView {
                level: "error"@,
                message: backend@ + " backend failed"@,
            }]);
            reveal_with_fuel(count_severity, 2);
        }
        ApiReport::new(changes, diagnostics)
    }
}

/// The unknown change that stands for a backend that could not run.
pub open spec fn backend_error_change(
    package: Option<Seq<char>>,
    message: Seq<char>,
    backend: Seq<char>,
) -> ApiChangeView {
    ApiChangeView {
        package,
        severity: Severity::Unknown,
        kind: "backend_error"@,
        symbol: "<backend>"@,
        file: None,
        line: None,
        message,
        backend,
    }
}


/// The number of change views of the given severity.
pub open spec fn count_view_severity(changes: Seq<ApiChangeView>, severity: Severity) -> nat
    decreases changes.len(),
{
    if changes.len() == 0 {
        0
    } else {
        count_view_severity(changes.drop_last(), severity) + if changes.last().severity == severity {
            1nat
        } else {
            0nat
        }
    }
}

proof fn lemma_count_views(changes: Seq<ApiChange>, severity: Severity)
    ensures
        count_severity(changes, severity) == count_view_severity(change_views(changes), severity),
    decreases changes.len(),
{
    if changes.len() > 0 {
        lemma_count_views(changes.drop_last(), severity);
        assert(change_views(changes.drop_last()) =~= change_views(changes).drop_last());
    }
}

proof fn lemma_count_view_append(a: Seq<ApiChangeView>, b: Seq<ApiChangeView>, severity: Severity)
    ensures
        count_view_severity(a + b, severity) == count_view_severity(a, severity) + count_view_severity(b, severity),
    decreases b.len(),
{
    if b.len() == 0 {
        assert(a + b =~= a);
    } else {
        lemma_count_view_append(a, b.drop_last(), severity);
        assert((a + b).drop_last() =~= a + b.drop_last());
    }
}

proof fn lemma_counts_add_up(changes: Seq<ApiChange>)
    ensures
        count_severity(changes, Severity::Breaking) + count_severity(changes, Severity::Additive)
            + count_severity(changes, Severity::Internal) + count_severity(changes, Severity::Unknown)
            == changes.len(),
    decreases changes.len(),
{
    if changes.len() > 0 {
        lemma_counts_add_up(changes.drop_last());
    }
}

/// Every change is counted under exactly one severity.
pub proof fn law_summary_counts_every_change(summary: Summary, changes: Seq<ApiChange>, suppressed: nat)
    requires
        summarizes(summary, changes, suppressed),
    ensures
        summary.breaking + summary.additive + summary.internal + summary.unknown == changes.len(),
{
    lemma_counts_add_up(changes);
}

/// Suppressed changes are counted but do not contribute to the recommendation: summaries that
/// differ only in the suppressed count recommend the same bump.
pub proof fn law_suppressed_changes_do_not_affect_recommendation(a: Summary, b: Summary)
    requires
        a.breaking == b.breaking,
        a.additive == b.additive,
        a.internal == b.internal,
        a.unknown == b.unknown,
    ensures
        spec_recommend(a) == spec_recommend(b),
{
}

/// Any breaking change asks for a major release, and only a breaking change does; internal
/// changes alone ask for a patch release.
pub proof fn law_recommendation_precedence(summary: Summary)
    ensures
        (spec_recommend(summary) == Recommendation::Major) <==> summary.breaking > 0,
        summary.breaking == 0 && summary.unknown == 0 && summary.additive == 0 ==> spec_recommend(summary)
            == Recommendation::Patch,
        summary.breaking == 0 && summary.unknown > 0 ==> spec_recommend(summary) == Recommendation::Unknown,
{
}

/// The sum of one summary field over the packages.
pub open spec fn summary_total(packages: Seq<PackageReport>, field: spec_fn(Summary) -> nat) -> nat
    decreases packages.len(),
{
    if packages.len() == 0 {
        0
    } else {
        summary_total(packages.drop_last(), field) + field(packages.last().summary)
    }
}

proof fn lemma_packages_counts(packages: Seq<PackageReport>, severity: Severity, field: spec_fn(Summary) -> nat)
    requires
        forall|i: int| 0 <= i < packages.len() ==> #[trigger] package_report_consistent(packages[i]),
        forall|s: Summary| #[trigger] field(s) == match severity {
            Severity::Breaking => s.breaking as nat,
            Severity::Additive => s.additive as nat,
            Severity::Internal => s.internal as nat,
            Severity::Unknown => s.unknown as nat,
        },
    ensures
        count_view_severity(packages_changes(packages), severity) == summary_total(packages, field),
    decreases packages.len(),
{
    if packages.len() > 0 {
        let d = packages.drop_last();
        assert forall|i: int| 0 <= i < d.len() implies #[trigger] package_report_consistent(d[i]) by {
            assert(d[i] == packages[i]);
        }
        lemma_packages_counts(d, severity, field);
        let p = packages.last();
        assert(package_report_consistent(packages[packages.len() - 1]));
        lemma_count_view_append(packages_changes(d), change_views(p.changes@), severity);
        lemma_count_views(p.changes@, severity);
    }
}

proof fn lemma_packages_suppressed(packages: Seq<PackageReport>)
    requires
        forall|i: int| 0 <= i < packages.len() ==> #[trigger] package_report_consistent(packages[i]),
    ensures
        packages_suppressed(packages).len() == summary_total(packages, |s: Summary| s.suppressed as nat),
    decreases packages.len(),
{
    if packages.len() > 0 {
        let d = packages.drop_last();
        assert forall|i: int| 0 <= i < d.len() implies #[trigger] package_report_consistent(d[i]) by {
            assert(d[i] == packages[i]);
        }
        lemma_packages_suppressed(d);
        assert(package_report_consistent(packages[packages.len() - 1]));
    }
}

/// The summary of a report over several packages is the sum of their summaries.
pub proof fn law_report_summary_sums_packages(packages: Seq<PackageReport>, report: ApiReport)
    requires
        forall|i: int| 0 <= i < packages.len() ==> #[trigger] package_report_consistent(packages[i]),
        change_views(report.changes@) == packages_changes(packages),
        change_views(report.suppressed_changes@) == packages_suppressed(packages),
        report_consistent(report),
    ensures
        report.summary.breaking == summary_total(packages, |s: Summary| s.breaking as nat),
        report.summary.additive == summary_total(packages, |s: Summary| s.additive as nat),
        report.summary.internal == summary_total(packages, |s: Summary| s.internal as nat),
        report.summary.unknown == summary_total(packages, |s: Summary| s.unknown as nat),
        report.summary.suppressed == summary_total(packages, |s: Summary| s.suppressed as nat),
{
    lemma_packages_counts(packages, Severity::Breaking, |s: Summary| s.breaking as nat);
    lemma_packages_counts(packages, Severity::Additive, |s: Summary| s.additive as nat);
    lemma_packages_counts(packages, Severity::Internal, |s: Summary| s.internal as nat);
    lemma_packages_counts(packages, Severity::Unknown, |s: Summary| s.unknown as nat);
    lemma_count_views(report.changes@, Severity::Breaking);
    lemma_count_views(report.changes@, Severity::Additive);
    lemma_count_views(report.changes@, Severity::Internal);
    lemma_count_views(report.changes@, Severity::Unknown);
    lemma_packages_suppressed(packages);
    assert(report.suppressed_changes@.len() == change_views(report.suppressed_changes@).len());
}

proof fn lemma_total_positive(packages: Seq<PackageReport>, field: spec_fn(Summary) -> nat)
    ensures
        summary_total(packages, field) > 0 <==> exists|i: int|
            0 <= i < packages.len() && #[trigger] field(packages[i].summary) > 0,
    decreases packages.len(),
{
    if packages.len() > 0 {
        let d = packages.drop_last();
        lemma_total_positive(d, field);
        if summary_total(d, field) > 0 {
            let i = choose|i: int| 0 <= i < d.len() && #[trigger] field(d[i].summary) > 0;
            assert(packages[i] == d[i]);
        }
        if exists|i: int| 0 <= i < packages.len() && #[trigger] field(packages[i].summary) > 0 {
            let i = choose|i: int| 0 <= i < packages.len() && #[trigger] field(packages[i].summary) > 0;
            if i < d.len() {
                assert(d[i] == packages[i]);
            }
        }
    }
}

/// The recommendation of a report over several packages is the most severe of theirs: it asks
/// for a major release exactly when some package does, and for a patch release exactly when
/// every package does.
pub proof fn law_report_recommendation_is_most_severe(packages: Seq<PackageReport>, report: ApiReport)
    requires
        forall|i: int| 0 <= i < packages.len() ==> #[trigger] package_report_consistent(packages[i]),
        change_views(report.changes@) == packages_changes(packages),
        change_views(report.suppressed_changes@) == packages_suppressed(packages),
        report_consistent(report),
    ensures
        report.recommendation == Recommendation::Major <==> exists|i: int|
            0 <= i < packages.len() && #[trigger] packages[i].recommendation == Recommendation::Major,
        report.recommendation == Recommendation::Patch <==> forall|i: int|
            0 <= i < packages.len() ==> #[trigger] packages[i].recommendation == Recommendation::Patch,
{
    let fb = |s: Summary| s.breaking as nat;
    let fa = |s: Summary| s.additive as nat;
    let fu = |s: Summary| s.unknown as nat;
    law_report_summary_sums_packages(packages, report);
    lemma_total_positive(packages, fb);
    lemma_total_positive(packages, fa);
    lemma_total_positive(packages, fu);
    if report.recommendation == Recommendation::Major {
        let i = choose|i: int| 0 <= i < packages.len() && #[trigger] fb(packages[i].summary) > 0;
        assert(package_report_consistent(packages[i]));
        assert(packages[i].recommendation == Recommendation::Major);
    }
    if exists|i: int| 0 <= i < packages.len() && #[trigger] packages[i].recommendation == Recommendation::Major {
        let i = choose|i: int| 0 <= i < packages.len() && #[trigger] packages[i].recommendation == Recommendation::Major;
        assert(package_report_consistent(packages[i]));
        assert(fb(packages[i].summary) > 0);
    }
    if report.recommendation == Recommendation::Patch {
        assert forall|i: int| 0 <= i < packages.len() implies #[trigger] packages[i].recommendation
            == Recommendation::Patch by {
            assert(package_report_consistent(packages[i]));
            assert(!(fb(packages[i].summary) > 0));
            assert(!(fa(packages[i].summary) > 0));
            assert(!(fu(packages[i].summary) > 0));
        }
    }
    if forall|i: int| 0 <= i < packages.len() ==> #[trigger] packages[i].recommendation == Recommendation::Patch {
        assert forall|i: int| 0 <= i < packages.len() implies !(#[trigger] fb(packages[i].summary) > 0) by {
            assert(package_report_consistent(packages[i]));
            assert(packages[i].recommendation == Recommendation::Patch);
        }
        assert forall|i: int| 0 <= i < packages.len() implies !(#[trigger] fa(packages[i].summary) > 0) by {
            assert(package_report_consistent(packages[i]));
            assert(packages[i].recommendation == Recommendation::Patch);
        }
        assert forall|i: int| 0 <= i < packages.len() implies !(#[trigger] fu(packages[i].summary) > 0) by {
            assert(package_report_consistent(packages[i]));
            assert(packages[i].recommendation == Recommendation::Patch);
        }
    }
}

proof fn lemma_count_severity_remove(s: Seq<ApiChange>, j: int, severity: Severity)
    requires
        0 <= j < s.len(),
    ensures
        count_severity(s, severity) == count_severity(s.remove(j), severity) + if s[j].severity
            == severity {
            1nat
        } else {
            0nat
        },
{
    let front = s.take(j);
    let back = s.skip(j + 1);
    let one = seq![s[j]];
    assert(s =~= front + (one + back));
    assert(s.remove(j) =~= front + back);
    lemma_count_severity_append(front, one + back, severity);
    lemma_count_severity_append(one, back, severity);
    lemma_count_severity_append(front, back, severity);
    assert(one.drop_last() =~= Seq::<ApiChange>::empty());
    assert(one.last() == s[j]);
    assert(count_severity(Seq::<ApiChange>::empty(), severity) == 0);
    assert(count_severity(one, severity) == if s[j].severity == severity {
        1nat
    } else {
        0nat
    });
}

/// The counts of a list of changes do not depend on its order: lists that hold the same changes,
/// each as often, count the same number of each severity.
pub proof fn law_counts_ignore_order(a: Seq<ApiChange>, b: Seq<ApiChange>, severity: Severity)
    requires
        a.to_multiset() == b.to_multiset(),
    ensures
        count_severity(a, severity) == count_severity(b, severity),
    decreases a.len(),
{
    broadcast use vstd::seq_lib::group_to_multiset_ensures;

    if a.len() == 0 {
        assert(b.to_multiset().len() == 0);
        assert(b.len() == 0);
    } else {
        let x = a.last();
        let d = a.drop_last();
        assert(a =~= d.push(x));
        assert(a.to_multiset() == d.to_multiset().insert(x));
        assert(b.to_multiset().count(x) > 0);
        assert(b.contains(x));
        let j = choose|j: int| 0 <= j < b.len() && b[j] == x;
        let b2 = b.remove(j);
        assert(b2.to_multiset() == b.to_multiset().remove(x));
        assert(d.to_multiset() =~= b2.to_multiset());
        law_counts_ignore_order(d, b2, severity);
        lemma_count_severity_remove(b, j, severity);
        assert(count_severity(a, severity) == count_severity(d, severity) + if x.severity == severity {
            1nat
        } else {
            0nat
        });
    }
}

/// A summary does not depend on the order of the changes: summaries of two lists that hold the
/// same changes, each as often, with the same number suppressed, are equal.
pub proof fn law_summary_ignores_order(x: Summary, y: Summary, a: Seq<ApiChange>, b: Seq<ApiChange>, suppressed: nat)
    requires
        a.to_multiset() == b.to_multiset(),
        summarizes(x, a, suppressed),
        summarizes(y, b, suppressed),
    ensures
        x == y,
{
    law_counts_ignore_order(a, b, Severity::Breaking);
    law_counts_ignore_order(a, b, Severity::Additive);
    law_counts_ignore_order(a, b, Severity::Internal);
    law_counts_ignore_order(a, b, Severity::Unknown);
}

/// Summaries add up over concatenation: the summary of `a + b` is the field-wise sum of those of
/// `a` and `b`, and an empty list counts nothing.
pub proof fn law_summary_adds_over_concatenation(
    x: Summary,
    y: Summary,
    z: Summary,
    a: Seq<ApiChange>,
    b: Seq<ApiChange>,
)
    requires
        summarizes(x, a, 0),
        summarizes(y, b, 0),
        summarizes(z, a + b, 0),
    ensures
        z.breaking == x.breaking + y.breaking,
        z.additive == x.additive + y.additive,
        z.internal == x.internal + y.internal,
        z.unknown == x.unknown + y.unknown,
        z.suppressed == 0,
        a.len() == 0 ==> x.breaking == 0 && x.additive == 0 && x.internal == 0 && x.unknown == 0,
{
    lemma_count_severity_append(a, b, Severity::Breaking);
    lemma_count_severity_append(a, b, Severity::Additive);
    lemma_count_severity_append(a, b, Severity::Internal);
    lemma_count_severity_append(a, b, Severity::Unknown);
}

} // verus!
