use std::time::Duration;

use taskband::markup::{plain, Segment};
use taskband::plugin::{
    elide, error_lines, exec_outcome, first_line, interpret, interpret_noted, is_due, module_lines,
    tick,
    OutputMode,
};

fn nanos(d: Duration) -> u128 {
    d.as_nanos()
}

fn seg(text: &str, classes: &[&str]) -> Segment {
    Segment {
        text: text.to_string(),
        classes: classes.iter().map(|c| c.to_string()).collect(),
    }
}

#[test]
fn never_run_is_due() {
    assert!(is_due(None, nanos(Duration::from_secs(2))));
}

#[test]
fn due_when_interval_elapsed() {
    assert!(is_due(
        Some(nanos(Duration::from_secs(2))),
        nanos(Duration::from_secs(2))
    ));
    assert!(is_due(
        Some(nanos(Duration::from_secs(3))),
        nanos(Duration::from_secs(2))
    ));
}

#[test]
fn not_due_before_interval() {
    assert!(!is_due(
        Some(nanos(Duration::from_millis(500))),
        nanos(Duration::from_secs(2))
    ));
}

#[test]
fn text_mode_passes_output_through_verbatim() {
    let lines = interpret("m", OutputMode::Text, "<span class='x'>a</span>\n<b>&</b>");
    assert_eq!(lines[0], vec![seg("<span class='x'>a</span>", &[])]);
    assert_eq!(lines[1], vec![seg("<b>&</b>", &[])]);
}

#[test]
fn html_mode_parses_spans_and_newlines() {
    let lines = interpret(
        "m",
        OutputMode::Html,
        "<span class='title'>MEM</span>\n<span class='warning'>76%</span> used",
    );
    assert_eq!(lines[0], vec![seg("MEM", &["title"])]);
    assert_eq!(lines[1], vec![seg("76%", &["warning"]), seg(" used", &[])]);
}

#[test]
fn html_mode_plain_text_passes_through() {
    let lines = interpret("m", OutputMode::Html, "just text\nsecond line");
    assert_eq!(lines, plain("just text\nsecond line"));
}

#[test]
fn html_mode_bad_markup_falls_back_to_raw_text() {
    let raw = "<b>92%</b> & done";
    let lines = interpret("m", OutputMode::Html, raw);
    assert_eq!(lines, vec![vec![seg(raw, &[])]]);
}

#[test]
fn html_mode_tolerates_unclosed_span() {
    let lines = interpret("m", OutputMode::Html, "<span class='c'>oops");
    assert_eq!(lines, vec![vec![seg("oops", &["c"])]]);
}

#[test]
fn empty_output_yields_no_lines() {
    assert!(interpret("m", OutputMode::Text, "").is_empty());
    assert!(interpret("m", OutputMode::Html, "").is_empty());
}

#[test]
fn error_lines_show_the_name_over_the_reason() {
    let lines = error_lines("memory", "file not found");
    assert_eq!(lines.len(), 2);
    assert_eq!(lines[0], vec![seg("memory", &[])]);
    assert_eq!(lines[1], vec![seg("file not found", &[])]);
}

/// A reason is never parsed as markup, so a message containing angle
/// brackets stays readable instead of vanishing or erroring again.
#[test]
fn error_lines_never_parse_markup() {
    let lines = error_lines("m", "unexpected <span> & more");
    assert_eq!(lines[1], vec![seg("unexpected <span> & more", &[])]);
}

#[test]
fn long_reasons_are_elided() {
    assert_eq!(elide("short", 10), "short");
    assert_eq!(elide("0123456789", 10), "0123456789");
    assert_eq!(elide("0123456789x", 10), "012345678…");
    // counts characters, not bytes, so a multi-byte reason cannot panic
    assert_eq!(elide("ünïcödé is fine here", 5), "ünïc…");
}

#[test]
fn first_line_skips_blanks_and_trims() {
    assert_eq!(
        first_line("\n\n  hello  \nworld"),
        Some("hello".to_string())
    );
    assert_eq!(first_line("   \n  "), None);
}

#[test]
fn outcome_of_success_is_trimmed_stdout() {
    assert_eq!(
        exec_outcome(true, "hello\r\n", "", Some(0)).unwrap(),
        "hello"
    );
}

#[test]
fn outcome_of_failure_reports_stderr_not_stdout() {
    let reason = exec_outcome(false, "banner\r\n", "the real problem \r\n", Some(1))
        .expect_err("non-zero exit is an error");
    assert_eq!(reason, "the real problem");
    assert!(!reason.contains("banner"));
}

#[test]
fn outcome_without_stderr_reports_the_exit_code() {
    assert_eq!(
        exec_outcome(false, "", "", Some(3)).unwrap_err(),
        "exited with code 3"
    );
    assert_eq!(
        exec_outcome(false, "", " \n ", Some(-2)).unwrap_err(),
        "exited with code -2"
    );
    assert_eq!(exec_outcome(false, "", "", None).unwrap_err(), "terminated");
}

#[test]
fn elide_to_zero_keeps_only_the_ellipsis() {
    assert_eq!(elide("abc", 0), "…");
    assert_eq!(elide("", 0), "");
}

#[test]
fn error_lines_elide_long_reasons_to_sixty_characters() {
    let reason = "x".repeat(70);
    let lines = error_lines("m", &reason);
    let shown = &lines[1][0].text;
    assert_eq!(shown.chars().count(), 60);
    assert!(shown.ends_with('…'));
}

#[test]
fn module_lines_show_output_or_failure() {
    let ok: Result<String, String> = Ok("<span class='a'>x</span>".to_string());
    assert_eq!(
        module_lines("m", OutputMode::Html, &ok).0,
        vec![vec![seg("x", &["a"])]]
    );
    let failed: Result<String, String> = Err("boom".to_string());
    assert_eq!(
        module_lines("m", OutputMode::Html, &failed),
        (vec![vec![seg("m", &[])], vec![seg("boom", &[])]], Vec::<String>::new())
    );
}

#[test]
fn tick_runs_due_modules_and_stamps_them() {
    let mut last = vec![None, Some(1_000), Some(9_000)];
    let intervals = vec![5_000, 5_000, 5_000];
    let due = tick(&mut last, &intervals, 10_000);
    assert_eq!(due, vec![0, 1]);
    assert_eq!(last, vec![Some(10_000), Some(10_000), Some(9_000)]);
    // nothing is due again right away
    assert!(tick(&mut last, &intervals, 10_000).is_empty());
}

#[test]
fn tick_treats_a_clock_that_went_back_as_no_time_elapsed() {
    let mut last = vec![Some(50)];
    assert!(tick(&mut last, &vec![1], 10).is_empty());
    assert!(!tick(&mut last, &vec![0], 10).is_empty());
}

#[test]
fn interpreting_markup_notes_warnings_and_rejections() {
    let (lines, notes) = interpret_noted("mem", OutputMode::Html, "<span class='c'>oops");
    assert_eq!(lines, vec![vec![seg("oops", &["c"])]]);
    assert_eq!(
        notes,
        vec!["Taskband: module 'mem': unclosed <span> auto-closed at end of output".to_string()]
    );
    let (lines, notes) = interpret_noted("mem", OutputMode::Html, "<b>x</b>");
    assert_eq!(lines, plain("<b>x</b>"));
    assert_eq!(notes.len(), 1);
    assert!(notes[0].starts_with("Taskband: module 'mem': bad markup ("), "got {notes:?}");
    assert!(notes[0].ends_with("); showing raw text"), "got {notes:?}");
    assert!(interpret_noted("mem", OutputMode::Text, "<b>x</b>").1.is_empty());
    assert!(interpret_noted("mem", OutputMode::Html, "fine").1.is_empty());
}
