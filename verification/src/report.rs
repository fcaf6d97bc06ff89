//! Report types shared by the analyzer and the command line: findings about
//! unused symbols, diagnostics, and their summary.
use vstd::prelude::*;

use crate::text::{concat_text, copy_string};

verus! {

#[derive(Debug, Clone, Copy, PartialEq, Eq, Structural)]
pub enum Severity {
    Error,
    Warning,
}

#[derive(Debug, Clone, Copy, PartialEq, Eq, Structural)]
pub enum SymbolKind {
    Module,
    Function,
    Class,
    Method,
    Attribute,
    Field,
}

#[derive(Debug, Clone, PartialEq, Eq)]
pub struct SourceSpan {
    pub file: String,
    pub line: usize,
    pub column: usize,
}

impl SourceSpan {
    pub fn new(file: &str, line: usize, column: usize) -> (r: Self)
        ensures
            r.file@ == file@,
            r.line == line,
            r.column == column,
    {
        SourceSpan { file: String::from_str(file), line, column }
    }

    /// A copy with the same file, line and column.
    pub fn duplicate(&self) -> (r: Self)
        ensures
            r.file@ == self.file@,
            r.line == self.line,
            r.column == self.column,
    {
        SourceSpan { file: copy_string(&self.file), line: self.line, column: self.column }
    }
}

#[derive(Debug, Clone, PartialEq, Eq)]
pub struct Finding {
    pub code: String,
    pub message: String,
    pub symbol: String,
    pub symbol_kind: SymbolKind,
    pub span: SourceSpan,
    /// Root groups other than the primary one from which the symbol is reachable.
    pub reachable_from: Vec<String>,
}

/// The message of a finding about `symbol`: `unused symbol {symbol}`.
pub open spec fn unused_message(symbol: Seq<char>) -> Seq<char> {
    "unused symbol "@ + symbol
}

impl Finding {
    pub fn unused(code: &str, symbol: &str, symbol_kind: SymbolKind, span: SourceSpan) -> (r: Self)
        ensures
            r.code@ == code@,
            r.message@ == unused_message(symbol@),
            r.symbol@ == symbol@,
            r.symbol_kind == symbol_kind,
            r.span == span,
            r.reachable_from@.len() == 0,
    {
        Finding {
            code: String::from_str(code),
            message: concat_text("unused symbol ", symbol),
            symbol: String::from_str(symbol),
            symbol_kind,
            span,
            reachable_from: Vec::new(),
        }
    }

    /// The same finding, noting the root groups it is reachable from.
    pub fn with_reachable_from(self, groups: Vec<String>) -> (r: Self)
        ensures
            r.code == self.code,
            r.message == self.message,
            r.symbol == self.symbol,
            r.symbol_kind == self.symbol_kind,
            r.span == self.span,
            r.reachable_from == groups,
    {
        Finding { reachable_from: groups, ..self }
    }
}

#[derive(Debug, Clone, PartialEq, Eq)]
pub struct Diagnostic {
    pub code: String,
    pub severity: Severity,
    pub message: String,
    pub span: SourceSpan,
}

impl Diagnostic {
    pub fn warning(code: &str, message: &str, span: SourceSpan) -> (r: Self)
        ensures
            r.code@ == code@,
            r.severity == Severity::Warning,
            r.message@ == message@,
            r.span == span,
    {
        Diagnostic {
            code: String::from_str(code),
            severity: Severity::Warning,
            message: String::from_str(message),
            span,
        }
    }
}

#[derive(Debug, Clone, PartialEq, Eq)]
pub struct AnalysisReport {
    pub findings: Vec<Finding>,
    pub diagnostics: Vec<Diagnostic>,
}

impl Default for AnalysisReport {
    fn default() -> (r: Self)
        ensures
            r.findings@.len() == 0,
            r.diagnostics@.len() == 0,
    {
        AnalysisReport { findings: Vec::new(), diagnostics: Vec::new() }
    }
}

impl AnalysisReport {
    pub fn is_clean(&self) -> (r: bool)
        ensures
            r == (self.findings@.len() == 0),
    {
        self.findings.len() == 0
    }

    pub fn summary(&self) -> (r: ReportSummary)
        ensures
            r.findings == self.findings@.len(),
            r.diagnostics == self.diagnostics@.len(),
    {
        ReportSummary { findings: self.findings.len(), diagnostics: self.diagnostics.len() }
    }
}

#[derive(Debug, Clone, Copy, PartialEq, Eq, Structural)]
pub struct ReportSummary {
    pub findings: usize,
    pub diagnostics: usize,
}

/// The word printed for a severity.
pub fn severity_label(severity: &Severity) -> (r: &'static str)
    ensures
        r@ == (match severity {
            Severity::Error => "error"@,
            Severity::Warning => "warning"@,
        }),
{
    match severity {
        Severity::Error => "error",
        Severity::Warning => "warning",
    }
}

/// Finding code for a kind of symbol.
pub open spec fn kind_code(kind: SymbolKind) -> Seq<char> {
    match kind {
        SymbolKind::Function => "DCF001"@,
        SymbolKind::Class => "DCF002"@,
        SymbolKind::Method => "DCF003"@,
        SymbolKind::Attribute | SymbolKind::Field => "DCF004"@,
        SymbolKind::Module => "DCF000"@,
    }
}

/// The finding code reported for an unused symbol of the given kind.
pub fn code_for_kind(kind: &SymbolKind) -> (r: &'static str)
    ensures
        r@ == kind_code(*kind),
{
    match kind {
        SymbolKind::Function => "DCF001",
        SymbolKind::Class => "DCF002",
        SymbolKind::Method => "DCF003",
        SymbolKind::Attribute | SymbolKind::Field => "DCF004",
        SymbolKind::Module => "DCF000",
    }
}

} // verus!
