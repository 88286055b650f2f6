use rtk::curl_cmd::{curl_failure_message, filter_curl_output, filter_curl_output_with, truncate_lines};

#[test]
fn test_filter_curl_json_preserves_values() {
    let output = r#"{"name": "Alice", "count": 42, "items": [1, 2, 3]}"#;
    let result = filter_curl_output(output);
    assert!(result.contains("Alice"), "actual string value preserved");
    assert!(result.contains("42"), "actual number value preserved");
    assert!(!result.contains(": string"), "no schema types");
    assert!(!result.contains(": int"), "no schema types");
}

#[test]
fn test_filter_curl_json_array_preserves_values() {
    let output = r#"[{"id": 1, "name": "foo"}, {"id": 2, "name": "bar"}]"#;
    let result = filter_curl_output(output);
    assert!(result.contains("foo"), "array item values preserved");
    assert!(result.contains("bar"), "array item values preserved");
}

#[test]
fn test_filter_curl_non_json() {
    let output = "Hello, World!\nThis is plain text.";
    let result = filter_curl_output(output);
    assert!(result.contains("Hello, World!"));
    assert!(result.contains("plain text"));
}

#[test]
fn test_filter_curl_json_small_pretty_printed() {
    let output = r#"{"r2Ready":true,"status":"ok"}"#;
    let result = filter_curl_output(output);
    assert!(result.contains("r2Ready"));
    assert!(result.contains("true"));
    assert!(result.contains("ok"));
}

#[test]
fn test_filter_curl_long_output() {
    let lines: Vec<String> = (0..50).map(|i| format!("Line {}", i)).collect();
    let output = lines.join("\n");
    let result = filter_curl_output(&output);
    assert!(result.contains("Line 0"));
    assert!(result.contains("Line 29"));
    assert!(result.contains("more lines"));
}

#[test]
fn test_filter_curl_long_json_truncated() {
    let items: Vec<String> = (0..100)
        .map(|i| format!(r#"{{"id": {}, "name": "item_{}"}}"#, i, i))
        .collect();
    let output = format!("[{}]", items.join(","));
    let result = filter_curl_output(&output);
    assert!(result.contains("item_0"), "first items preserved");
    assert!(result.contains("more lines"), "long JSON truncated");
}

// --- further cases ---

#[test]
fn truncate_lines_exact_summary() {
    let text = "a\nb\nc\n";
    assert_eq!(truncate_lines(text, 2), "a\nb\n\n... (1 more lines, 6 bytes total)");
    assert_eq!(truncate_lines(text, 3), "a\nb\nc");
}

#[test]
fn truncate_lines_cuts_long_lines() {
    let long = "x".repeat(250);
    let out = truncate_lines(&long, 5);
    assert_eq!(out, format!("{}...", "x".repeat(197)));
}

#[test]
fn curl_pretty_json_is_indented() {
    let result = filter_curl_output("  {\"a\":1}  ");
    assert_eq!(result, "{\n  \"a\": 1\n}");
}

#[test]
fn curl_invalid_json_is_plain_text() {
    let result = filter_curl_output("  {not json}  ");
    assert_eq!(result, "{not json}");
}

#[test]
fn curl_filter_with_given_pretty_form() {
    assert_eq!(filter_curl_output_with("ignored", Some("p1\np2")), "p1\np2");
    assert_eq!(filter_curl_output_with("  plain  ", None), "plain");
}

#[test]
fn curl_failure_message_prefers_stderr() {
    assert_eq!(curl_failure_message(" out ", " err "), "err");
    assert_eq!(curl_failure_message(" out ", " \n "), "out");
}
