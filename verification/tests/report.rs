use deadcode::report::{
    code_for_kind, severity_label, AnalysisReport, Diagnostic, Finding, ReportSummary, Severity,
    SourceSpan, SymbolKind,
};

#[test]
fn clean_report_has_no_findings() {
    let report = AnalysisReport::default();

    assert!(report.is_clean());
    assert_eq!(
        report.summary(),
        ReportSummary {
            findings: 0,
            diagnostics: 0
        }
    );
}

#[test]
fn findings_make_report_unclean() {
    let report = AnalysisReport {
        findings: vec![Finding::unused(
            "DCF001",
            "example.dead",
            SymbolKind::Function,
            SourceSpan::new("example.py", 1, 1),
        )],
        diagnostics: vec![],
    };

    assert!(!report.is_clean());
    assert_eq!(report.summary().findings, 1);
}

#[test]
fn unused_finding_reads_unused_symbol() {
    let finding = Finding::unused(
        "DCF003",
        "pkg.mod.Class.method",
        SymbolKind::Method,
        SourceSpan::new("pkg/mod.py", 12, 5),
    );
    assert_eq!(finding.code, "DCF003");
    assert_eq!(finding.message, "unused symbol pkg.mod.Class.method");
    assert_eq!(finding.symbol, "pkg.mod.Class.method");
    assert_eq!(finding.span.line, 12);
    assert_eq!(finding.span.column, 5);
    assert!(finding.reachable_from.is_empty());
    let noted = finding.with_reachable_from(vec!["tests".to_string()]);
    assert_eq!(noted.reachable_from, vec!["tests".to_string()]);
    assert_eq!(noted.symbol, "pkg.mod.Class.method");
}

#[test]
fn diagnostics_count_in_summary_but_keep_report_clean() {
    let report = AnalysisReport {
        findings: vec![],
        diagnostics: vec![Diagnostic::warning(
            "DCF101",
            "cannot resolve receiver type for x.save",
            SourceSpan::new("pkg/main.py", 3, 5),
        )],
    };
    assert!(report.is_clean());
    assert_eq!(
        report.summary(),
        ReportSummary {
            findings: 0,
            diagnostics: 1
        }
    );
    assert_eq!(report.diagnostics[0].severity, Severity::Warning);
}

#[test]
fn codes_and_labels_by_kind() {
    assert_eq!(code_for_kind(&SymbolKind::Function), "DCF001");
    assert_eq!(code_for_kind(&SymbolKind::Class), "DCF002");
    assert_eq!(code_for_kind(&SymbolKind::Method), "DCF003");
    assert_eq!(code_for_kind(&SymbolKind::Attribute), "DCF004");
    assert_eq!(code_for_kind(&SymbolKind::Field), "DCF004");
    assert_eq!(code_for_kind(&SymbolKind::Module), "DCF000");
    assert_eq!(severity_label(&Severity::Error), "error");
    assert_eq!(severity_label(&Severity::Warning), "warning");
}
