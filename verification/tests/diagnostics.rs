use md2pptx::diagnostics::{messages_to_report, warning_messages, warning_summary};

#[test]
fn omits_warning_summary_for_zero_or_one_warning() {
    assert_eq!(warning_summary(0), None);
    assert_eq!(warning_summary(1), None);
}

#[test]
fn summarizes_multiple_warnings() {
    assert_eq!(warning_summary(3), Some("3 warnings emitted".to_string()));
}

#[test]
fn summary_counts_past_nine() {
    assert_eq!(warning_summary(12), Some("12 warnings emitted".to_string()));
}

#[test]
fn reports_each_warning_then_the_summary() {
    let warnings = vec!["first".to_string(), "second".to_string()];
    assert_eq!(
        warning_messages(&warnings),
        vec![
            "first".to_string(),
            "second".to_string(),
            "2 warnings emitted".to_string()
        ]
    );
}

#[test]
fn reports_a_single_warning_without_summary() {
    let warnings = vec!["only".to_string()];
    assert_eq!(warning_messages(&warnings), vec!["only".to_string()]);
}

#[test]
fn quiet_reports_no_warning() {
    let warnings = vec!["first".to_string(), "second".to_string()];
    assert!(messages_to_report(&warnings, true).is_empty());
    assert_eq!(messages_to_report(&warnings, false).len(), 3);
}
