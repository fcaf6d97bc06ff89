//! The command line: its options, the lines it prints and its exit status.
use vstd::prelude::*;

use crate::report::{severity_label, AnalysisReport, Diagnostic, Finding, ReportSummary, Severity};
use crate::text::{chars_of, concat_text, same_text, string_of};

verus! {

#[derive(Debug, Clone, Copy, PartialEq, Eq, Structural)]
pub enum OutputFormat {
    Text,
    Json,
}

#[derive(Debug, Clone, PartialEq, Eq)]
pub struct CliOptions {
    pub config_path: String,
    pub format: OutputFormat,
    pub strict: bool,
}

/// What the command line asks for: a run with options, or the usage text.
#[derive(Debug, Clone, PartialEq, Eq)]
pub enum Command {
    Run(CliOptions),
    Help,
}

/// What a command line asks for, by value.
pub enum CommandView {
    Run { config_path: Seq<char>, format: OutputFormat, strict: bool },
    Help,
}

pub open spec fn command_view(c: Command) -> CommandView {
    match c {
        Command::Run(o) => CommandView::Run { config_path: o.config_path@, format: o.format, strict: o.strict },
        Command::Help => CommandView::Help,
    }
}

/// The outcome of reading the arguments from position `i` on, with the
/// options read so far.
pub open spec fn parse_from(
    args: Seq<Seq<char>>,
    i: int,
    path: Seq<char>,
    format: OutputFormat,
    strict: bool,
) -> Result<CommandView, Seq<char>>
    decreases args.len() - i,
{
    if i < 0 || i >= args.len() {
        Ok(CommandView::Run { config_path: path, format, strict })
    } else if args[i] == "--config"@ {
        if i + 1 >= args.len() {
            Err("--config requires a path"@)
        } else {
            parse_from(args, i + 2, args[i + 1], format, strict)
        }
    } else if args[i] == "--format"@ {
        if i + 1 >= args.len() {
            Err("--format requires text or json"@)
        } else if args[i + 1] == "text"@ {
            parse_from(args, i + 2, path, OutputFormat::Text, strict)
        } else if args[i + 1] == "json"@ {
            parse_from(args, i + 2, path, OutputFormat::Json, strict)
        } else {
            Err("--format requires text or json"@)
        }
    } else if args[i] == "--strict"@ {
        parse_from(args, i + 1, path, format, true)
    } else if args[i] == "--help"@ || args[i] == "-h"@ {
        Ok(CommandView::Help)
    } else {
        Err("unknown argument: "@ + args[i])
    }
}

/// Reads the command line: `--config PATH`, `--format
/// text|json` and `--strict`, in any order, the last one winning; `--help`
/// or `-h` asks for the usage text; anything else is an error. Without
/// options the configuration is `dead-code-finder.json`, printed as text.
pub fn parse_options(args: &Vec<String>) -> (r: Result<Command, String>)
    ensures
        match r {
            Ok(c) => parse_from(crate::text::views(args@), 0, "dead-code-finder.json"@, OutputFormat::Text, false)
                == Ok::<CommandView, Seq<char>>(command_view(c)),
            Err(e) => parse_from(crate::text::views(args@), 0, "dead-code-finder.json"@, OutputFormat::Text, false)
                == Err::<CommandView, Seq<char>>(e@),
        },
{
    let ghost a = crate::text::views(args@);
    let mut path = String::from_str("dead-code-finder.json");
    let mut format = OutputFormat::Text;
    let mut strict = false;
    let mut index: usize = 0;
    while index < args.len()
        invariant
            a == crate::text::views(args@),
            index <= args@.len() + 1,
            parse_from(a, 0, "dead-code-finder.json"@, OutputFormat::Text, false) == parse_from(
                a,
                index as int,
                path@,
                format,
                strict,
            ),
        decreases args@.len() + 1 - index,
    {
        let arg = args[index].as_str();
        assert(a[index as int] == arg@);
        if same_text(arg, "--config") {
            if index + 1 >= args.len() {
                return Err(String::from_str("--config requires a path"));
            }
            assert(a[index + 1] == args@[index + 1]@);
            path = crate::text::copy_string(&args[index + 1]);
            index = index + 2;
        } else if same_text(arg, "--format") {
            if index + 1 >= args.len() {
                return Err(String::from_str("--format requires text or json"));
            }
            let value = args[index + 1].as_str();
            assert(a[index + 1] == value@);
            if same_text(value, "text") {
                format = OutputFormat::Text;
            } else if same_text(value, "json") {
                format = OutputFormat::Json;
            } else {
                return Err(String::from_str("--format requires text or json"));
            }
            index = index + 2;
        } else if same_text(arg, "--strict") {
            strict = true;
            index = index + 1;
        } else if same_text(arg, "--help") || same_text(arg, "-h") {
            return Ok(Command::Help);
        } else {
            return Err(concat_text("unknown argument: ", arg));
        }
    }
    Ok(Command::Run(CliOptions { config_path: path, format, strict }))
}

/// The usage text.
pub fn usage() -> (r: &'static str)
    ensures
        r@ == "usage: dead-code-finder [--config dead-code-finder.json] [--format text|json] [--strict]"@,
{
    "usage: dead-code-finder [--config dead-code-finder.json] [--format text|json] [--strict]"
}

/// The exit status of a run: 0 when nothing was reported unused and, in
/// strict mode, there was no diagnostic either; 1 otherwise.
pub fn exit_status(report: &AnalysisReport, strict: bool) -> (r: u8)
    ensures
        r == (if report.findings@.len() == 0 && !(strict && report.diagnostics@.len() > 0) {
            0u8
        } else {
            1u8
        }),
{
    if report.is_clean() && !(strict && report.diagnostics.len() > 0) {
        0
    } else {
        1
    }
}

// ---------------------------------------------------------------------------
// Printed lines
// ---------------------------------------------------------------------------

/// The character of a decimal digit.
pub open spec fn digit_char(d: nat) -> char {
    if d == 0 {
        '0'
    } else if d == 1 {
        '1'
    } else if d == 2 {
        '2'
    } else if d == 3 {
        '3'
    } else if d == 4 {
        '4'
    } else if d == 5 {
        '5'
    } else if d == 6 {
        '6'
    } else if d == 7 {
        '7'
    } else if d == 8 {
        '8'
    } else {
        '9'
    }
}

/// A number written in decimal.
pub open spec fn decimal(n: nat) -> Seq<char>
    decreases n,
{
    if n < 10 {
        seq![digit_char(n)]
    } else {
        decimal(n / 10).push(digit_char(n % 10))
    }
}

fn digit(d: usize) -> (r: char)
    requires
        d < 10,
    ensures
        r == digit_char(d as nat),
{
    if d == 0 {
        '0'
    } else if d == 1 {
        '1'
    } else if d == 2 {
        '2'
    } else if d == 3 {
        '3'
    } else if d == 4 {
        '4'
    } else if d == 5 {
        '5'
    } else if d == 6 {
        '6'
    } else if d == 7 {
        '7'
    } else if d == 8 {
        '8'
    } else {
        '9'
    }
}

fn decimal_chars(n: usize) -> (r: Vec<char>)
    ensures
        r@ == decimal(n as nat),
    decreases n,
{
    if n < 10 {
        let mut v: Vec<char> = Vec::new();
        v.push(digit(n));
        assert(v@ =~= seq![digit_char(n as nat)]);
        v
    } else {
        let mut v = decimal_chars(n / 10);
        v.push(digit(n % 10));
        v
    }
}

/// `n` written in decimal (`n.to_string()`).
pub fn decimal_text(n: usize) -> (r: String)
    ensures
        r@ == decimal(n as nat),
{
    let v = decimal_chars(n);
    string_of(&v)
}

fn push_text(out: &mut Vec<char>, s: &str)
    ensures
        final(out)@ == old(out)@ + s@,
{
    let x = chars_of(s);
    let ghost start = out@;
    let mut i: usize = 0;
    while i < x.len()
        invariant
            x@ == s@,
            i <= x@.len(),
            out@ == start + x@.take(i as int),
        decreases x@.len() - i,
    {
        out.push(x[i]);
        assert(x@.take(i + 1) =~= x@.take(i as int).push(x@[i as int]));
        i = i + 1;
    }
    assert(x@.take(x@.len() as int) =~= x@);
}

/// `file:line:column` of a span.
pub open spec fn place(file: Seq<char>, line: usize, column: usize) -> Seq<char> {
    file + seq![':'] + decimal(line as nat) + seq![':'] + decimal(column as nat)
}

/// The line printed for a finding: `file:line:column code message`.
pub open spec fn finding_line_text(f: Finding) -> Seq<char> {
    place(f.span.file@, f.span.line, f.span.column) + seq![' '] + f.code@ + seq![' '] + f.message@
}

pub fn finding_line(f: &Finding) -> (r: String)
    ensures
        r@ == finding_line_text(*f),
{
    let mut out: Vec<char> = Vec::new();
    push_text(&mut out, f.span.file.as_str());
    out.push(':');
    push_text(&mut out, decimal_text(f.span.line).as_str());
    out.push(':');
    push_text(&mut out, decimal_text(f.span.column).as_str());
    out.push(' ');
    push_text(&mut out, f.code.as_str());
    out.push(' ');
    push_text(&mut out, f.message.as_str());
    assert(out@ =~= finding_line_text(*f));
    string_of(&out)
}

/// The word for a severity.
pub open spec fn severity_word(s: Severity) -> Seq<char> {
    match s {
        Severity::Error => "error"@,
        Severity::Warning => "warning"@,
    }
}

/// The line printed for a diagnostic:
/// `file:line:column code severity: message`.
pub open spec fn diagnostic_line_text(d: Diagnostic) -> Seq<char> {
    place(d.span.file@, d.span.line, d.span.column) + seq![' '] + d.code@ + seq![' '] + severity_word(d.severity)
        + seq![':', ' '] + d.message@
}

pub fn diagnostic_line(d: &Diagnostic) -> (r: String)
    ensures
        r@ == diagnostic_line_text(*d),
{
    let mut out: Vec<char> = Vec::new();
    push_text(&mut out, d.span.file.as_str());
    out.push(':');
    push_text(&mut out, decimal_text(d.span.line).as_str());
    out.push(':');
    push_text(&mut out, decimal_text(d.span.column).as_str());
    out.push(' ');
    push_text(&mut out, d.code.as_str());
    out.push(' ');
    push_text(&mut out, severity_label(&d.severity));
    out.push(':');
    out.push(' ');
    push_text(&mut out, d.message.as_str());
    assert(out@ =~= diagnostic_line_text(*d));
    string_of(&out)
}

/// The closing line of a text report:
/// `dead-code-finder: N finding(s), M diagnostic(s)`.
pub open spec fn summary_line_text(s: ReportSummary) -> Seq<char> {
    "dead-code-finder: "@ + decimal(s.findings as nat) + " finding(s), "@ + decimal(s.diagnostics as nat)
        + " diagnostic(s)"@
}

pub fn summary_line(s: ReportSummary) -> (r: String)
    ensures
        r@ == summary_line_text(s),
{
    let mut out: Vec<char> = Vec::new();
    push_text(&mut out, "dead-code-finder: ");
    push_text(&mut out, decimal_text(s.findings).as_str());
    push_text(&mut out, " finding(s), ");
    push_text(&mut out, decimal_text(s.diagnostics).as_str());
    push_text(&mut out, " diagnostic(s)");
    assert(out@ =~= summary_line_text(s));
    string_of(&out)
}

/// The lines of a text report: the diagnostics, then the findings, then the
/// summary.
pub fn text_report_lines(report: &AnalysisReport) -> (r: Vec<String>)
    ensures
        r@.len() == report.diagnostics@.len() + report.findings@.len() + 1,
        forall|i: int| 0 <= i < report.diagnostics@.len() ==> #[trigger] r@[i]@ == diagnostic_line_text(report.diagnostics@[i]),
        forall|i: int|
            0 <= i < report.findings@.len() ==> #[trigger] r@[report.diagnostics@.len() + i]@ == finding_line_text(
                report.findings@[i],
            ),
        r@[r@.len() - 1]@ == summary_line_text(
            ReportSummary { findings: report.findings@.len() as usize, diagnostics: report.diagnostics@.len() as usize },
        ),
{
    let mut lines: Vec<String> = Vec::new();
    let mut i: usize = 0;
    while i < report.diagnostics.len()
        invariant
            i <= report.diagnostics@.len(),
            lines@.len() == i,
            forall|k: int| 0 <= k < i ==> #[trigger] lines@[k]@ == diagnostic_line_text(report.diagnostics@[k]),
        decreases report.diagnostics@.len() - i,
    {
        lines.push(diagnostic_line(&report.diagnostics[i]));
        i = i + 1;
    }
    let n = report.diagnostics.len();
    let mut j: usize = 0;
    while j < report.findings.len()
        invariant
            n == report.diagnostics@.len(),
            j <= report.findings@.len(),
            lines@.len() == n + j,
            forall|k: int| 0 <= k < n ==> #[trigger] lines@[k]@ == diagnostic_line_text(report.diagnostics@[k]),
            forall|k: int| 0 <= k < j ==> #[trigger] lines@[n + k]@ == finding_line_text(report.findings@[k]),
        decreases report.findings@.len() - j,
    {
        lines.push(finding_line(&report.findings[j]));
        j = j + 1;
    }
    lines.push(summary_line(report.summary()));
    lines
}

} // verus!
