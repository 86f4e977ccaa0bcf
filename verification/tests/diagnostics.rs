use cargo_buckal::diagnostics::{
    output_map_text, output_paths, parse_stream, record_lines, render, report, Diagnostic,
    DiagnosticSummary, ReportLine,
};
use serde_json::Value;

fn stream(lines: &[&str]) -> String {
    lines.join("\n")
}

fn field(value: &Value, name: &str) -> Option<String> {
    value.get(name).and_then(|v| v.as_str()).map(|s| s.to_owned())
}

fn record(line: &str) -> Option<Diagnostic> {
    let value: Value = serde_json::from_str(line).ok()?;
    Some(Diagnostic {
        level: field(&value, "level"),
        rendered: field(&value, "rendered"),
        message: field(&value, "message"),
    })
}

fn read(contents: &str) -> Vec<Diagnostic> {
    parse_stream(record_lines(contents).iter().map(|l| record(l)).collect())
}

#[test]
fn output_paths_reads_the_map_and_skips_outputless_targets() {
    let stdout = r#"{"root//a:a[clippy.json]":"C:\\o\\a.json","root//b:b[clippy.json]":"","root//c:c[clippy.json]":"C:\\o\\c.json"}"#;

    let paths = output_paths(stdout).expect("parse");

    assert_eq!(paths, vec![r"C:\o\a.json", r"C:\o\c.json"]);
}

#[test]
fn output_paths_tolerates_a_line_before_the_map() {
    let stdout = "some daemon chatter\n{\"root//a:a\":\"/o/a.json\"}\n";

    let paths = output_paths(stdout).expect("parse");

    assert_eq!(paths, vec!["/o/a.json"]);
}

#[test]
fn output_paths_errors_on_empty_output() {
    assert!(output_paths("   \n").is_err());
}

#[test]
fn output_paths_says_what_is_wrong_with_the_map() {
    let err = output_paths("{\"a\":1}").expect_err("not a map of texts");
    assert_eq!(
        err.messages()[0],
        "failed to parse the output map from `buck2 build --show-full-json-output`"
    );
    assert_eq!(err.messages().len(), 2);
    assert_eq!(output_map_text("  {\"x\":\"y\"}  \n{}"), "{\"x\":\"y\"}");
    assert_eq!(output_map_text("  no map \n"), "no map");
}

#[test]
fn parse_stream_skips_blank_and_unparseable_lines() {
    let contents = stream(&[
        r#"{"level":"warning","message":"unused variable","rendered":"warning: unused variable\n"}"#,
        "",
        "not json at all",
        r#"{"level":"error","message":"mismatched types","rendered":"error: mismatched types\n"}"#,
    ]);

    let diagnostics = read(&contents);

    assert_eq!(diagnostics.len(), 2);
    assert_eq!(diagnostics[0].level.as_deref(), Some("warning"));
    assert_eq!(diagnostics[1].level.as_deref(), Some("error"));
}

#[test]
fn render_counts_errors_and_warnings() {
    let diagnostics = read(&stream(&[
        r#"{"level":"warning","message":"w1","rendered":"warning: w1"}"#,
        r#"{"level":"warning","message":"w2","rendered":"warning: w2"}"#,
        r#"{"level":"error","message":"e1","rendered":"error: e1"}"#,
    ]));

    let (blocks, summary) = render(&diagnostics);

    assert_eq!(blocks.len(), 3);
    assert_eq!(
        summary,
        DiagnosticSummary {
            errors: 1,
            warnings: 2
        }
    );
    assert!(!summary.is_clean());
}

#[test]
fn render_deduplicates_across_targets() {
    let one = r#"{"level":"warning","message":"unused","rendered":"warning: unused\n --> src/lib.rs:1:1"}"#;
    let diagnostics = read(&stream(&[one, one, one]));

    let (blocks, summary) = render(&diagnostics);

    assert_eq!(blocks.len(), 1);
    assert_eq!(summary.warnings, 1);
}

#[test]
fn render_prints_tallies_without_counting_them() {
    let diagnostics = read(&stream(&[
        r#"{"level":"error","message":"mismatched types","rendered":"error: mismatched types"}"#,
        r#"{"level":"error","message":"aborting due to 1 previous error","rendered":"error: aborting due to 1 previous error"}"#,
        r#"{"level":"warning","message":"1 warning emitted","rendered":"warning: 1 warning emitted"}"#,
    ]));

    let (blocks, summary) = render(&diagnostics);

    assert_eq!(blocks.len(), 3);
    assert_eq!(summary.errors, 1);
    assert_eq!(summary.warnings, 0);
}

#[test]
fn render_skips_records_with_nothing_to_print() {
    let diagnostics = read(&stream(&[
        r#"{"unused_extern_names":[]}"#,
        r#"{"level":"warning","message":"w","rendered":""}"#,
    ]));

    let (blocks, summary) = render(&diagnostics);

    assert!(blocks.is_empty());
    assert!(summary.is_clean());
}

#[test]
fn render_treats_ice_as_an_error() {
    let diagnostics = read(&stream(&[
        r#"{"level":"error: internal compiler error","message":"ice","rendered":"error: internal compiler error"}"#,
    ]));

    let (_, summary) = render(&diagnostics);

    assert_eq!(summary.errors, 1);
}

#[test]
fn only_errors_are_a_failure() {
    let clean = DiagnosticSummary::default();
    let (ok, line) = report(&clean, "clippy");
    assert!(ok);
    assert!(matches!(line, ReportLine::Finished(m) if m == "clippy found no issues"));
    let warned = DiagnosticSummary {
        errors: 0,
        warnings: 12,
    };
    let (ok, line) = report(&warned, "check");
    assert!(ok);
    assert!(matches!(line, ReportLine::Warning(m) if m == "check found 12 warning(s)"));
    let failed = DiagnosticSummary {
        errors: 3,
        warnings: 10,
    };
    let (ok, line) = report(&failed, "clippy");
    assert!(!ok);
    assert!(
        matches!(line, ReportLine::Error(m) if m == "clippy found 3 error(s) and 10 warning(s)")
    );
}

#[test]
fn an_empty_record_says_nothing() {
    let d = Diagnostic::default();
    assert!(!d.is_error());
    assert!(!d.is_warning());
    assert!(!d.is_tally());
}
