use vstd::prelude::*;

use crate::model::{
    change_views, recommendation_text, severity_text, ApiChange, ApiChangeView, ApiReport,
    PackageReport, Recommendation, Severity, Summary,
};
use crate::text::{chars_of, decimal, push_char, push_decimal};

verus! {

/// How a report is printed.
#[derive(Debug, Clone, Copy, PartialEq, Eq, Structural)]
pub enum OutputFormat {
    Human,
    Json,
    Markdown,
    Github,
}

/// The texts of `items`, one after the other.
pub open spec fn concat_map<T>(items: Seq<T>, f: spec_fn(T) -> Seq<char>) -> Seq<char>
    decreases items.len(),
{
    if items.len() == 0 {
        Seq::empty()
    } else {
        concat_map(items.drop_last(), f) + f(items.last())
    }
}

/// `s` with each character replaced by its text under `f`.
pub open spec fn escape_text(s: Seq<char>, f: spec_fn(char) -> Seq<char>) -> Seq<char>
    decreases s.len(),
{
    if s.len() == 0 {
        Seq::empty()
    } else {
        escape_text(s.drop_last(), f) + f(s.last())
    }
}

/// A character inside a Markdown table cell: `|` escaped, a line break as `<br>`.
pub open spec fn markdown_cell_char(c: char) -> Seq<char> {
    if c == '|' {
        "\\|"@
    } else if c == '\n' {
        "<br>"@
    } else {
        seq![c]
    }
}

/// A character of a GitHub workflow command property: `%`, `\r`, `\n`, `:` and `,` percent-encoded.
pub open spec fn command_property_char(c: char) -> Seq<char> {
    if c == '%' {
        "%25"@
    } else if c == '\r' {
        "%0D"@
    } else if c == '\n' {
        "%0A"@
    } else if c == ':' {
        "%3A"@
    } else if c == ',' {
        "%2C"@
    } else {
        seq![c]
    }
}

/// A character of GitHub workflow command data: `%`, `\r` and `\n` percent-encoded.
pub open spec fn command_data_char(c: char) -> Seq<char> {
    if c == '%' {
        "%25"@
    } else if c == '\r' {
        "%0D"@
    } else if c == '\n' {
        "%0A"@
    } else {
        seq![c]
    }
}

pub open spec fn markdown_escaped(s: Seq<char>) -> Seq<char> {
    escape_text(s, |c: char| markdown_cell_char(c))
}

pub open spec fn property_escaped(s: Seq<char>) -> Seq<char> {
    escape_text(s, |c: char| command_property_char(c))
}

pub open spec fn data_escaped(s: Seq<char>) -> Seq<char> {
    escape_text(s, |c: char| command_data_char(c))
}

/// Which escaping a text gets.
#[derive(Debug, Clone, Copy, PartialEq, Eq, Structural)]
enum Escaping {
    MarkdownCell,
    CommandProperty,
    CommandData,
}

spec fn escaping_char(e: Escaping, c: char) -> Seq<char> {
    match e {
        Escaping::MarkdownCell => markdown_cell_char(c),
        Escaping::CommandProperty => command_property_char(c),
        Escaping::CommandData => command_data_char(c),
    }
}

fn push_escaped_char(out: &mut String, c: char, e: Escaping)
    ensures
        final(out)@ == old(out)@ + escaping_char(e, c),
{
    let replacement: Option<&'static str> = match e {
        Escaping::MarkdownCell => if c == '|' {
            Some("\\|")
        } else if c == '\n' {
            Some("<br>")
        } else {
            None
        },
        _ => if c == '%' {
            Some("%25")
        } else if c == '\r' {
            Some("%0D")
        } else if c == '\n' {
            Some("%0A")
        } else if e == Escaping::CommandProperty && c == ':' {
            Some("%3A")
        } else if e == Escaping::CommandProperty && c == ',' {
            Some("%2C")
        } else {
            None
        },
    };
    match replacement {
        Some(r) => out.append(r),
        None => {
            push_char(out, c);
            assert(old(out)@.push(c) =~= old(out)@ + seq![c]);
        },
    }
}

fn push_escaped(out: &mut String, value: &str, e: Escaping)
    ensures
        final(out)@ == old(out)@ + escape_text(value@, |c: char| escaping_char(e, c)),
{
    let chars = chars_of(value);
    let n = chars.len();
    let ghost start = out@;
    let ghost f = |c: char| escaping_char(e, c);
    assert(chars@.take(0) =~= Seq::<char>::empty());
    assert(start + Seq::<char>::empty() =~= start);
    for i in 0..n
        invariant
            n == chars@.len(),
            chars@ == value@,
            f == (|c: char| escaping_char(e, c)),
            out@ == start + escape_text(chars@.take(i as int), f),
    {
        push_escaped_char(out, chars[i], e);
        proof {
            assert(chars@.take(i + 1).drop_last() =~= chars@.take(i as int));
            assert(chars@.take(i + 1).last() == chars@[i as int]);
        }
        assert(out@ =~= start + escape_text(chars@.take(i + 1), f));
    }
    assert(chars@.take(n as int) =~= chars@);
}

proof fn lemma_escape_text_ext(s: Seq<char>, f: spec_fn(char) -> Seq<char>, g: spec_fn(char) -> Seq<char>)
    requires
        forall|c: char| #[trigger] f(c) == g(c),
    ensures
        escape_text(s, f) == escape_text(s, g),
    decreases s.len(),
{
    if s.len() > 0 {
        lemma_escape_text_ext(s.drop_last(), f, g);
    }
}

/// `value` escaped for a Markdown table cell.
pub fn escape_markdown_table(value: &str) -> (r: String)
    ensures
        r@ == markdown_escaped(value@),
{
    let mut r = String::new();
    push_escaped(&mut r, value, Escaping::MarkdownCell);
    proof {
        lemma_escape_text_ext(
            value@,
            |c: char| escaping_char(Escaping::MarkdownCell, c),
            |c: char| markdown_cell_char(c),
        );
    }
    assert(r@ =~= markdown_escaped(value@));
    r
}

/// `value` escaped for a GitHub workflow command property.
pub fn escape_github_command_property(value: &str) -> (r: String)
    ensures
        r@ == property_escaped(value@),
{
    let mut r = String::new();
    push_escaped(&mut r, value, Escaping::CommandProperty);
    proof {
        lemma_escape_text_ext(
            value@,
            |c: char| escaping_char(Escaping::CommandProperty, c),
            |c: char| command_property_char(c),
        );
    }
    assert(r@ =~= property_escaped(value@));
    r
}

/// `value` escaped for GitHub workflow command data.
pub fn escape_github_command_data(value: &str) -> (r: String)
    ensures
        r@ == data_escaped(value@),
{
    let mut r = String::new();
    push_escaped(&mut r, value, Escaping::CommandData);
    proof {
        lemma_escape_text_ext(
            value@,
            |c: char| escaping_char(Escaping::CommandData, c),
            |c: char| command_data_char(c),
        );
    }
    assert(r@ =~= data_escaped(value@));
    r
}

proof fn lemma_escape_text_avoids(s: Seq<char>, f: spec_fn(char) -> Seq<char>, c: char)
    requires
        forall|x: char| !(#[trigger] f(x)).contains(c),
    ensures
        !escape_text(s, f).contains(c),
    decreases s.len(),
{
    if s.len() > 0 {
        lemma_escape_text_avoids(s.drop_last(), f, c);
        let front = escape_text(s.drop_last(), f);
        let back = f(s.last());
        assert(!back.contains(c));
        assert forall|i: int| 0 <= i < (front + back).len() implies (front + back)[i] != c by {
            if i < front.len() {
                assert((front + back)[i] == front[i]);
            } else {
                assert((front + back)[i] == back[i - front.len()]);
            }
        }
    }
}

/// Escaping keeps a value on one line and out of the command syntax: a value escaped for a
/// Markdown table cell holds no line break; one escaped as a workflow command property holds no
/// line break, carriage return, `:` or `,`; one escaped as command data holds no line break or
/// carriage return.
pub proof fn law_escaped_texts_stay_on_one_line(s: Seq<char>)
    ensures
        !markdown_escaped(s).contains('\n'),
        !property_escaped(s).contains('\n'),
        !property_escaped(s).contains('\r'),
        !property_escaped(s).contains(':'),
        !property_escaped(s).contains(','),
        !data_escaped(s).contains('\n'),
        !data_escaped(s).contains('\r'),
{
    reveal_strlit("\\|");
    reveal_strlit("<br>");
    reveal_strlit("%25");
    reveal_strlit("%0D");
    reveal_strlit("%0A");
    reveal_strlit("%3A");
    reveal_strlit("%2C");
    let m = |c: char| markdown_cell_char(c);
    let p = |c: char| command_property_char(c);
    let d = |c: char| command_data_char(c);
    assert forall|x: char| !(#[trigger] m(x)).contains('\n') by {
        assert(m(x) == markdown_cell_char(x));
    }
    lemma_escape_text_avoids(s, m, '\n');
    assert forall|x: char| !(#[trigger] p(x)).contains('\n') by {
        assert(p(x) == command_property_char(x));
    }
    assert forall|x: char| !(#[trigger] p(x)).contains('\r') by {
        assert(p(x) == command_property_char(x));
    }
    assert forall|x: char| !(#[trigger] p(x)).contains(':') by {
        assert(p(x) == command_property_char(x));
    }
    assert forall|x: char| !(#[trigger] p(x)).contains(',') by {
        assert(p(x) == command_property_char(x));
    }
    assert forall|x: char| !(#[trigger] d(x)).contains('\n') by {
        assert(d(x) == command_data_char(x));
    }
    assert forall|x: char| !(#[trigger] d(x)).contains('\r') by {
        assert(d(x) == command_data_char(x));
    }
    lemma_escape_text_avoids(s, p, '\n');
    lemma_escape_text_avoids(s, p, '\r');
    lemma_escape_text_avoids(s, p, ':');
    lemma_escape_text_avoids(s, p, ',');
    lemma_escape_text_avoids(s, d, '\n');
    lemma_escape_text_avoids(s, d, '\r');
}

/// Where a change is: `file:line`, the file alone, `line n`, or `-`.
pub open spec fn location_text(change: ApiChangeView) -> Seq<char> {
    match (change.file, change.line) {
        (Some(file), Some(line)) => file + ":"@ + decimal(line as nat),
        (Some(file), None) => file,
        (None, Some(line)) => "line "@ + decimal(line as nat),
        (None, None) => "-"@,
    }
}

/// Where a change is.
pub fn location(change: &ApiChange) -> (r: String)
    ensures
        r@ == location_text(change@),
{
    match (&change.file, change.line) {
        (Some(file), Some(line)) => {
            let mut r = file.clone();
            r.append(":");
            push_decimal(&mut r, line as u64);
            r
        },
        (Some(file), None) => file.clone(),
        (None, Some(line)) => {
            let mut r = String::from_str("line ");
            push_decimal(&mut r, line as u64);
            r
        },
        (None, None) => String::from_str("-"),
    }
}

/// The location in brackets after a leading space, or nothing where the location is `-`.
pub open spec fn location_suffix_text(change: ApiChangeView) -> Seq<char> {
    if location_text(change) == "-"@ {
        Seq::empty()
    } else {
        " ("@ + location_text(change) + ")"@
    }
}

/// The location in brackets, or nothing where there is none.
pub fn location_suffix(change: &ApiChange) -> (r: String)
    ensures
        r@ == location_suffix_text(change@),
{
    let location = location(change);
    if crate::text::text_equal(location.as_str(), "-") {
        String::new()
    } else {
        let mut r = String::from_str(" (");
        r.append(location.as_str());
        r.append(")");
        r
    }
}

pub open spec fn recommendation_sentence_text(recommendation: Recommendation) -> Seq<char> {
    match recommendation {
        Recommendation::Major => "major version bump required"@,
        Recommendation::Minor => "minor version bump recommended"@,
        Recommendation::Patch => "patch version is sufficient"@,
        Recommendation::Unknown => "unable to determine version bump"@,
    }
}

/// The sentence that states a recommendation.
pub fn recommendation_sentence(recommendation: Recommendation) -> (r: &'static str)
    ensures
        r@ == recommendation_sentence_text(recommendation),
{
    match recommendation {
        Recommendation::Major => "major version bump required",
        Recommendation::Minor => "minor version bump recommended",
        Recommendation::Patch => "patch version is sufficient",
        Recommendation::Unknown => "unable to determine version bump",
    }
}

/// The decimal notation of a count.
pub open spec fn dec(n: usize) -> Seq<char> {
    decimal(n as nat)
}

/// The annotation level of a change: errors for breaking changes, warnings for unknown ones,
/// notices otherwise.
pub open spec fn annotation_text(severity: Severity) -> Seq<char> {
    match severity {
        Severity::Breaking => "error"@,
        Severity::Unknown => "warning"@,
        Severity::Additive | Severity::Internal => "notice"@,
    }
}

/// The way one change is printed.
#[derive(Debug, Clone, Copy, PartialEq, Eq, Structural)]
pub enum ChangeLineStyle {
    Human,
    HumanSuppressed,
    MarkdownWithPackage,
    MarkdownWithoutPackage,
    MarkdownSuppressed,
    Github,
}

/// The `file` and `line` properties of a workflow command, where the change has a file.
pub open spec fn github_file_text(c: ApiChangeView) -> Seq<char> {
    match c.file {
        Some(file) => " file="@ + property_escaped(file) + match c.line {
            Some(line) => ",line="@ + decimal(line as nat),
            None => Seq::empty(),
        },
        None => Seq::empty(),
    }
}

/// One change, printed in the given style.
pub open spec fn change_line(style: ChangeLineStyle, c: ApiChangeView) -> Seq<char> {
    match style {
        ChangeLineStyle::Human => "- ["@ + severity_text(c.severity) + "] "@ + c.kind + " "@ + c.symbol
            + location_suffix_text(c) + ": "@ + c.message + "\n"@,
        ChangeLineStyle::HumanSuppressed => "- ["@ + severity_text(c.severity) + "] "@ + c.kind + " "@
            + c.symbol + ": "@ + c.message + "\n"@,
        ChangeLineStyle::MarkdownWithPackage => "| `"@ + markdown_escaped(
            match c.package {
                Some(p) => p,
                None => "-"@,
            },
        ) + "` | `"@ + severity_text(c.severity) + "` | `"@ + markdown_escaped(c.kind) + "` | `"@
            + markdown_escaped(c.symbol) + "` | "@ + markdown_escaped(location_text(c)) + " | "@
            + markdown_escaped(c.message) + " |\n"@,
        ChangeLineStyle::MarkdownWithoutPackage => "| `"@ + severity_text(c.severity) + "` | `"@
            + markdown_escaped(c.kind) + "` | `"@ + markdown_escaped(c.symbol) + "` | "@
            + markdown_escaped(location_text(c)) + " | "@ + markdown_escaped(c.message) + " |\n"@,
        ChangeLineStyle::MarkdownSuppressed => "| `"@ + severity_text(c.severity) + "` | `"@
            + markdown_escaped(c.kind) + "` | `"@ + markdown_escaped(c.symbol) + "` | "@
            + markdown_escaped(c.message) + " |\n"@,
        ChangeLineStyle::Github => "::"@ + annotation_text(c.severity) + github_file_text(c) + (if c.file is Some {
            ",title="@
        } else {
            " title="@
        })
            + property_escaped(severity_text(c.severity) + ": "@ + c.kind) + "::"@ + data_escaped(
            c.symbol + ": "@ + c.message,
        ) + "\n"@,
    }
}

pub open spec fn change_lines(style: ChangeLineStyle, changes: Seq<ApiChangeView>) -> Seq<char> {
    concat_map(changes, |c: ApiChangeView| change_line(style, c))
}

proof fn lemma_markdown_escapes(s: Seq<char>)
    ensures
        escape_text(s, |c: char| escaping_char(Escaping::MarkdownCell, c)) == markdown_escaped(s),
{
    lemma_escape_text_ext(s, |c: char| escaping_char(Escaping::MarkdownCell, c), |c: char| markdown_cell_char(c));
}

proof fn lemma_property_escapes(s: Seq<char>)
    ensures
        escape_text(s, |c: char| escaping_char(Escaping::CommandProperty, c)) == property_escaped(s),
{
    lemma_escape_text_ext(
        s,
        |c: char| escaping_char(Escaping::CommandProperty, c),
        |c: char| command_property_char(c),
    );
}

proof fn lemma_data_escapes(s: Seq<char>)
    ensures
        escape_text(s, |c: char| escaping_char(Escaping::CommandData, c)) == data_escaped(s),
{
    lemma_escape_text_ext(s, |c: char| escaping_char(Escaping::CommandData, c), |c: char| command_data_char(c));
}

fn push_markdown(out: &mut String, value: &str)
    ensures
        final(out)@ == old(out)@ + markdown_escaped(value@),
{
    push_escaped(out, value, Escaping::MarkdownCell);
    proof {
        lemma_markdown_escapes(value@);
    }
}

fn push_human_line(out: &mut String, change: &ApiChange, suppressed: bool)
    ensures
        final(out)@ == old(out)@ + change_line(
            if suppressed { ChangeLineStyle::HumanSuppressed } else { ChangeLineStyle::Human },
            change@,
        ),
{
    let mut line = String::from_str("- [");
    line.append(change.severity.label());
    line.append("] ");
    line.append(change.kind.as_str());
    line.append(" ");
    line.append(change.symbol.as_str());
    if !suppressed {
        let suffix = location_suffix(change);
        line.append(suffix.as_str());
    }
    line.append(": ");
    line.append(change.message.as_str());
    line.append("\n");
    out.append(line.as_str());
}

fn push_markdown_line(out: &mut String, change: &ApiChange, style: ChangeLineStyle)
    requires
        style == ChangeLineStyle::MarkdownWithPackage || style == ChangeLineStyle::MarkdownWithoutPackage
            || style == ChangeLineStyle::MarkdownSuppressed,
    ensures
        final(out)@ == old(out)@ + change_line(style, change@),
{
    let mut line = String::from_str("| `");
    if style == ChangeLineStyle::MarkdownWithPackage {
        match &change.package {
            Some(p) => push_markdown(&mut line, p.as_str()),
            None => push_markdown(&mut line, "-"),
        }
        line.append("` | `");
    }
    line.append(change.severity.label());
    line.append("` | `");
    push_markdown(&mut line, change.kind.as_str());
    line.append("` | `");
    push_markdown(&mut line, change.symbol.as_str());
    line.append("` | ");
    if style != ChangeLineStyle::MarkdownSuppressed {
        let location = location(change);
        push_markdown(&mut line, location.as_str());
        line.append(" | ");
    }
    push_markdown(&mut line, change.message.as_str());
    line.append(" |\n");
    out.append(line.as_str());
}

fn push_github_line(out: &mut String, change: &ApiChange)
    ensures
        final(out)@ == old(out)@ + change_line(ChangeLineStyle::Github, change@),
{
    let annotation = match change.severity {
        Severity::Breaking => "error",
        Severity::Unknown => "warning",
        Severity::Additive | Severity::Internal => "notice",
    };
    let mut file_part = String::new();
    if let Some(file) = &change.file {
        file_part.append(" file=");
        push_escaped(&mut file_part, file.as_str(), Escaping::CommandProperty);
        proof {
            lemma_property_escapes(file@);
        }
        if let Some(line) = change.line {
            file_part.append(",line=");
            push_decimal(&mut file_part, line as u64);
        }
    }
    assert(file_part@ =~= github_file_text(change@));
    let mut title = String::from_str(change.severity.label());
    title.append(": ");
    title.append(change.kind.as_str());
    let mut message = change.symbol.clone();
    message.append(": ");
    message.append(change.message.as_str());
    let mut line = String::from_str("::");
    line.append(annotation);
    line.append(file_part.as_str());
    if change.file.is_some() {
        line.append(",title=");
    } else {
        line.append(" title=");
    }
    push_escaped(&mut line, title.as_str(), Escaping::CommandProperty);
    line.append("::");
    push_escaped(&mut line, message.as_str(), Escaping::CommandData);
    line.append("\n");
    proof {
        lemma_property_escapes(title@);
        lemma_data_escapes(message@);
    }
    out.append(line.as_str());
}

fn push_change_line(out: &mut String, style: ChangeLineStyle, change: &ApiChange)
    ensures
        final(out)@ == old(out)@ + change_line(style, change@),
{
    match style {
        ChangeLineStyle::Human => push_human_line(out, change, false),
        ChangeLineStyle::HumanSuppressed => push_human_line(out, change, true),
        ChangeLineStyle::Github => push_github_line(out, change),
        _ => push_markdown_line(out, change, style),
    }
}

fn push_change_lines(out: &mut String, style: ChangeLineStyle, changes: &Vec<ApiChange>)
    ensures
        final(out)@ == old(out)@ + change_lines(style, change_views(changes@)),
{
    let ghost start = out@;
    let ghost all = change_views(changes@);
    let ghost f = |c: ApiChangeView| change_line(style, c);
    let n = changes.len();
    assert(all.take(0) =~= Seq::<ApiChangeView>::empty());
    assert(start + concat_map(all.take(0), f) =~= start);
    for i in 0..n
        invariant
            n == changes@.len(),
            all == change_views(changes@),
            f == (|c: ApiChangeView| change_line(style, c)),
            out@ == start + concat_map(all.take(i as int), f),
    {
        push_change_line(out, style, &changes[i]);
        proof {
            assert(all.take(i + 1).drop_last() =~= all.take(i as int));
            assert(all.take(i + 1).last() == changes@[i as int]@);
        }
        assert(out@ =~= start + concat_map(all.take(i + 1), f));
    }
    assert(all.take(n as int) =~= all);
}

/// The counts of a summary as the human output lists them.
pub open spec fn human_counts(s: Summary) -> Seq<char> {
    dec(s.breaking) + " breaking, "@ + dec(s.additive) + " additive, "@ + dec(s.internal) + " internal, "@
        + dec(s.unknown) + " unknown, "@ + dec(s.suppressed) + " suppressed"@
}

fn push_human_counts(out: &mut String, s: &Summary)
    ensures
        final(out)@ == old(out)@ + human_counts(*s),
{
    let ghost start = out@;
    push_decimal(out, s.breaking as u64);
    out.append(" breaking, ");
    push_decimal(out, s.additive as u64);
    out.append(" additive, ");
    push_decimal(out, s.internal as u64);
    out.append(" internal, ");
    push_decimal(out, s.unknown as u64);
    out.append(" unknown, ");
    push_decimal(out, s.suppressed as u64);
    out.append(" suppressed");
    assert(out@ =~= start + human_counts(*s));
}

/// The line of one package in the human output.
pub open spec fn human_package_line(p: PackageReport) -> Seq<char> {
    "Package "@ + p.package@ + ": "@ + recommendation_text(p.recommendation) + " ("@ + human_counts(p.summary)
        + ")\n"@
}

/// The row of one package in the Markdown output.
pub open spec fn package_row_text(p: PackageReport) -> Seq<char> {
    "| `"@ + markdown_escaped(p.package@) + "` | `"@ + recommendation_text(p.recommendation) + "` | `"@
        + dec(p.summary.breaking) + "` | `"@ + dec(p.summary.additive) + "` | `"@ + dec(p.summary.internal)
        + "` | `"@ + dec(p.summary.unknown) + "` | `"@ + dec(p.summary.suppressed) + "` |\n"@
}

/// The row of one package in the Markdown output.
pub fn package_summary_row(package: &PackageReport) -> (r: String)
    ensures
        r@ == package_row_text(*package),
{
    let mut out = String::from_str("| `");
    push_escaped(&mut out, package.package.as_str(), Escaping::MarkdownCell);
    out.append("` | `");
    out.append(package.recommendation.label());
    out.append("` | `");
    push_decimal(&mut out, package.summary.breaking as u64);
    out.append("` | `");
    push_decimal(&mut out, package.summary.additive as u64);
    out.append("` | `");
    push_decimal(&mut out, package.summary.internal as u64);
    out.append("` | `");
    push_decimal(&mut out, package.summary.unknown as u64);
    out.append("` | `");
    push_decimal(&mut out, package.summary.suppressed as u64);
    out.append("` |\n");
    proof {
        lemma_escape_text_ext(package.package@, |c: char| escaping_char(Escaping::MarkdownCell, c), |c: char| markdown_cell_char(c));
    }
    assert(out@ =~= package_row_text(*package));
    out
}

/// Which package text is printed.
#[derive(Debug, Clone, Copy, PartialEq, Eq, Structural)]
enum PackageLineStyle {
    Human,
    MarkdownRow,
}

spec fn package_line(style: PackageLineStyle, p: PackageReport) -> Seq<char> {
    match style {
        PackageLineStyle::Human => human_package_line(p),
        PackageLineStyle::MarkdownRow => package_row_text(p),
    }
}

fn push_package_lines(out: &mut String, style: PackageLineStyle, packages: &Vec<PackageReport>)
    ensures
        final(out)@ == old(out)@ + concat_map(packages@, |p: PackageReport| package_line(style, p)),
{
    let ghost start = out@;
    let ghost f = |p: PackageReport| package_line(style, p);
    let n = packages.len();
    assert(packages@.take(0) =~= Seq::<PackageReport>::empty());
    assert(start + concat_map(packages@.take(0), f) =~= start);
    for i in 0..n
        invariant
            n == packages@.len(),
            f == (|p: PackageReport| package_line(style, p)),
            out@ == start + concat_map(packages@.take(i as int), f),
    {
        let ghost before = out@;
        let package = &packages[i];
        match style {
            PackageLineStyle::Human => {
                out.append("Package ");
                out.append(package.package.as_str());
                out.append(": ");
                out.append(package.recommendation.label());
                out.append(" (");
                push_human_counts(out, &package.summary);
                out.append(")\n");
            },
            PackageLineStyle::MarkdownRow => {
                let row = package_summary_row(package);
                out.append(row.as_str());
            },
        }
        assert(out@ =~= before + package_line(style, packages@[i as int]));
        proof {
            assert(packages@.take(i + 1).drop_last() =~= packages@.take(i as int));
            assert(packages@.take(i + 1).last() == packages@[i as int]);
        }
        assert(out@ =~= start + concat_map(packages@.take(i + 1), f));
    }
    assert(packages@.take(n as int) =~= packages@);
}

proof fn lemma_concat_map_ext<T>(items: Seq<T>, f: spec_fn(T) -> Seq<char>, g: spec_fn(T) -> Seq<char>)
    requires
        forall|x: T| #[trigger] f(x) == g(x),
    ensures
        concat_map(items, f) == concat_map(items, g),
    decreases items.len(),
{
    if items.len() > 0 {
        lemma_concat_map_ext(items.drop_last(), f, g);
    }
}

/// The human output of a report.
pub open spec fn human_text(report: ApiReport) -> Seq<char> {
    let head = "ApiBump recommendation: "@ + recommendation_text(report.recommendation) + "\n"@ + "Summary: "@
        + human_counts(report.summary) + "\n"@;
    let packages = if report.packages@.len() > 0 {
        "\n"@ + concat_map(report.packages@, |p: PackageReport| human_package_line(p))
    } else {
        Seq::empty()
    };
    let body = if report.changes@.len() == 0 {
        "\nNo public API changes detected.\n"@
    } else {
        "\n"@ + change_lines(ChangeLineStyle::Human, change_views(report.changes@)) + if report.suppressed_changes@.len()
            > 0 {
            "\nSuppressed changes:\n"@ + change_lines(
                ChangeLineStyle::HumanSuppressed,
                change_views(report.suppressed_changes@),
            )
        } else {
            Seq::empty()
        }
    };
    head + packages + body
}

/// The report as plain text.
pub fn render_human(report: &ApiReport) -> (r: String)
    ensures
        r@ == human_text(*report),
{
    let mut output = String::from_str("ApiBump recommendation: ");
    output.append(report.recommendation.label());
    output.append("\n");
    output.append("Summary: ");
    push_human_counts(&mut output, &report.summary);
    output.append("\n");
    let ghost head = output@;
    if report.packages.len() > 0 {
        output.append("\n");
        push_package_lines(&mut output, PackageLineStyle::Human, &report.packages);
        proof {
            lemma_concat_map_ext(
                report.packages@,
                |p: PackageReport| package_line(PackageLineStyle::Human, p),
                |p: PackageReport| human_package_line(p),
            );
        }
    }
    let ghost with_packages = output@;
    if report.changes.len() == 0 {
        output.append("\nNo public API changes detected.\n");
        assert(output@ =~= human_text(*report));
        return output;
    }
    output.append("\n");
    push_change_lines(&mut output, ChangeLineStyle::Human, &report.changes);
    if report.suppressed_changes.len() > 0 {
        output.append("\nSuppressed changes:\n");
        push_change_lines(&mut output, ChangeLineStyle::HumanSuppressed, &report.suppressed_changes);
    }
    assert(output@ =~= human_text(*report));
    output
}

/// The heading, recommendation and summary of the Markdown output.
pub open spec fn markdown_head(report: ApiReport) -> Seq<char> {
    let s = report.summary;
    "<!-- apibump-comment -->\n"@ + "## ApiBump API Compatibility Report\n\n"@ + "**Recommendation:** `"@
        + recommendation_text(report.recommendation) + "`\n\n"@ + "**Summary:** `"@ + dec(s.breaking)
        + "` breaking, `"@ + dec(s.additive) + "` additive, `"@ + dec(s.internal) + "` internal, `"@ + dec(
        s.unknown,
    ) + "` unknown, `"@ + dec(s.suppressed) + "` suppressed\n\n"@
}

/// The package table of the Markdown output, where there are packages.
pub open spec fn markdown_packages(report: ApiReport) -> Seq<char> {
    if report.packages@.len() > 0 {
        "### Packages\n\n"@ + "| Package | Recommendation | Breaking | Additive | Internal | Unknown | Suppressed |\n"@
            + "| --- | --- | --- | --- | --- | --- | --- |\n"@ + concat_map(
            report.packages@,
            |p: PackageReport| package_row_text(p),
        ) + "\n"@
    } else {
        Seq::empty()
    }
}

/// The change tables of the Markdown output: a package column where there is more than one
/// package, then the suppressed changes where there are any.
pub open spec fn markdown_body(report: ApiReport) -> Seq<char> {
    if report.changes@.len() == 0 {
        "No public API changes detected.\n"@
    } else {
        let table = if report.packages@.len() > 1 {
            "| Package | Severity | Kind | Symbol | Location | Message |\n"@ + "| --- | --- | --- | --- | --- | --- |\n"@
                + change_lines(ChangeLineStyle::MarkdownWithPackage, change_views(report.changes@))
        } else {
            "| Severity | Kind | Symbol | Location | Message |\n"@ + "| --- | --- | --- | --- | --- |\n"@
                + change_lines(ChangeLineStyle::MarkdownWithoutPackage, change_views(report.changes@))
        };
        table + if report.suppressed_changes@.len() > 0 {
            "\n### Suppressed Changes\n\n"@ + "| Severity | Kind | Symbol | Message |\n"@ + "| --- | --- | --- | --- |\n"@
                + change_lines(ChangeLineStyle::MarkdownSuppressed, change_views(report.suppressed_changes@))
        } else {
            Seq::empty()
        }
    }
}

/// The Markdown output of a report.
pub open spec fn markdown_text(report: ApiReport) -> Seq<char> {
    markdown_head(report) + markdown_packages(report) + markdown_body(report)
}

fn push_markdown_head(out: &mut String, report: &ApiReport)
    ensures
        final(out)@ == old(out)@ + markdown_head(*report),
{
    let mut head = String::from_str("<!-- apibump-comment -->\n");
    head.append("## ApiBump API Compatibility Report\n\n");
    head.append("**Recommendation:** `");
    head.append(report.recommendation.label());
    head.append("`\n\n");
    head.append("**Summary:** `");
    push_decimal(&mut head, report.summary.breaking as u64);
    head.append("` breaking, `");
    push_decimal(&mut head, report.summary.additive as u64);
    head.append("` additive, `");
    push_decimal(&mut head, report.summary.internal as u64);
    head.append("` internal, `");
    push_decimal(&mut head, report.summary.unknown as u64);
    head.append("` unknown, `");
    push_decimal(&mut head, report.summary.suppressed as u64);
    head.append("` suppressed\n\n");
    out.append(head.as_str());
}

fn push_markdown_packages(out: &mut String, report: &ApiReport)
    ensures
        final(out)@ == old(out)@ + markdown_packages(*report),
{
    if report.packages.len() > 0 {
        let mut section = String::from_str("### Packages\n\n");
        section.append("| Package | Recommendation | Breaking | Additive | Internal | Unknown | Suppressed |\n");
        section.append("| --- | --- | --- | --- | --- | --- | --- |\n");
        push_package_lines(&mut section, PackageLineStyle::MarkdownRow, &report.packages);
        proof {
            lemma_concat_map_ext(
                report.packages@,
                |p: PackageReport| package_line(PackageLineStyle::MarkdownRow, p),
                |p: PackageReport| package_row_text(p),
            );
        }
        section.append("\n");
        out.append(section.as_str());
    } else {
        assert(out@ + Seq::<char>::empty() =~= out@);
    }
}

fn push_markdown_body(out: &mut String, report: &ApiReport)
    ensures
        final(out)@ == old(out)@ + markdown_body(*report),
{
    if report.changes.len() == 0 {
        out.append("No public API changes detected.\n");
        return;
    }
    let mut table = String::new();
    if report.packages.len() > 1 {
        table.append("| Package | Severity | Kind | Symbol | Location | Message |\n");
        table.append("| --- | --- | --- | --- | --- | --- |\n");
        push_change_lines(&mut table, ChangeLineStyle::MarkdownWithPackage, &report.changes);
    } else {
        table.append("| Severity | Kind | Symbol | Location | Message |\n");
        table.append("| --- | --- | --- | --- | --- |\n");
        push_change_lines(&mut table, ChangeLineStyle::MarkdownWithoutPackage, &report.changes);
    }
    let mut rest = String::new();
    if report.suppressed_changes.len() > 0 {
        rest.append("\n### Suppressed Changes\n\n");
        rest.append("| Severity | Kind | Symbol | Message |\n");
        rest.append("| --- | --- | --- | --- |\n");
        push_change_lines(&mut rest, ChangeLineStyle::MarkdownSuppressed, &report.suppressed_changes);
    }
    out.append(table.as_str());
    out.append(rest.as_str());
}

/// The report as a Markdown comment.
pub fn render_markdown(report: &ApiReport) -> (r: String)
    ensures
        r@ == markdown_text(*report),
{
    let mut output = String::new();
    push_markdown_head(&mut output, report);
    push_markdown_packages(&mut output, report);
    push_markdown_body(&mut output, report);
    assert(output@ =~= markdown_text(*report));
    output
}

/// The GitHub workflow commands of a report: one annotation per change, a notice where there is
/// none, and a notice with the recommendation.
pub open spec fn github_text(report: ApiReport) -> Seq<char> {
    change_lines(ChangeLineStyle::Github, change_views(report.changes@)) + (if report.changes@.len() == 0 {
        "::notice title=ApiBump::No public API changes detected\n"@
    } else {
        Seq::empty()
    }) + "::notice title=ApiBump recommendation::"@ + recommendation_sentence_text(report.recommendation)
        + "\n"@
}

/// The report as GitHub workflow commands.
pub fn render_github(report: &ApiReport) -> (r: String)
    ensures
        r@ == github_text(*report),
{
    let mut output = String::new();
    push_change_lines(&mut output, ChangeLineStyle::Github, &report.changes);
    if report.changes.len() == 0 {
        output.append("::notice title=ApiBump::No public API changes detected\n");
    }
    output.append("::notice title=ApiBump recommendation::");
    output.append(recommendation_sentence(report.recommendation));
    output.append("\n");
    assert(output@ =~= github_text(*report));
    output
}

} // verus!
