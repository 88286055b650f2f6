use rtk::diff_cmd::{
    char_overlap, compare_texts, compute_diff, condense_unified_diff, diff_files_output, diff_report,
    is_similar, DiffChange,
};
use rtk::utils::truncate;

#[test]
fn test_truncate_short_string() {
    assert_eq!(truncate("hello", 10), "hello");
}

#[test]
fn test_truncate_exact_length() {
    assert_eq!(truncate("hello", 5), "hello");
}

#[test]
fn test_truncate_long_string() {
    assert_eq!(truncate("hello world!", 8), "hello...");
}

#[test]
fn test_compute_diff_identical() {
    let a = vec!["line1", "line2", "line3"];
    let b = vec!["line1", "line2", "line3"];
    let result = compute_diff(&a, &b);
    assert_eq!(result.added, 0);
    assert_eq!(result.removed, 0);
    assert_eq!(result.modified, 0);
    assert!(result.changes.is_empty());
}

#[test]
fn test_compute_diff_added_lines() {
    let a = vec!["line1"];
    let b = vec!["line1", "line2", "line3"];
    let result = compute_diff(&a, &b);
    assert_eq!(result.added, 2);
    assert_eq!(result.removed, 0);
}

#[test]
fn test_compute_diff_removed_lines() {
    let a = vec!["line1", "line2", "line3"];
    let b = vec!["line1"];
    let result = compute_diff(&a, &b);
    assert_eq!(result.removed, 2);
    assert_eq!(result.added, 0);
}

#[test]
fn test_compute_diff_modified_line() {
    let a = vec!["let x = 1;"];
    let b = vec!["let x = 2;"];
    let result = compute_diff(&a, &b);
    assert_eq!(result.modified, 1);
    assert_eq!(result.added, 0);
    assert_eq!(result.removed, 0);
}

#[test]
fn test_compute_diff_completely_different_line() {
    let a = vec!["aaaa"];
    let b = vec!["zzzz"];
    let result = compute_diff(&a, &b);
    assert_eq!(result.modified, 0);
    assert_eq!(result.added, 1);
    assert_eq!(result.removed, 1);
}

#[test]
fn test_compute_diff_empty_inputs() {
    let result = compute_diff(&[], &[]);
    assert_eq!(result.added, 0);
    assert_eq!(result.removed, 0);
    assert!(result.changes.is_empty());
}

#[test]
fn test_condense_unified_diff_single_file() {
    let diff = r#"diff --git a/src/main.rs b/src/main.rs
--- a/src/main.rs
+++ b/src/main.rs
@@ -1,3 +1,4 @@
 fn main() {
+    println!("hello");
     println!("world");
 }
"#;
    let result = condense_unified_diff(diff);
    assert!(result.contains("src/main.rs"));
    assert!(result.contains("+1"));
    assert!(result.contains("println"));
}

#[test]
fn test_condense_unified_diff_multiple_files() {
    let diff = r#"diff --git a/a.rs b/a.rs
--- a/a.rs
+++ b/a.rs
+added line
diff --git a/b.rs b/b.rs
--- a/b.rs
+++ b/b.rs
-removed line
"#;
    let result = condense_unified_diff(diff);
    assert!(result.contains("a.rs"));
    assert!(result.contains("b.rs"));
}

#[test]
fn test_condense_unified_diff_empty() {
    let result = condense_unified_diff("");
    assert!(result.is_empty());
}

// --- further cases ---

#[test]
fn truncate_tiny_limit_gives_dots() {
    assert_eq!(truncate("hello", 2), "...");
    assert_eq!(truncate("héllo wörld", 6), "hél...");
}

#[test]
fn similarity_as_counts() {
    // Same inputs as the original's similarity tests, as set sizes.
    assert_eq!(char_overlap("hello", "hello"), (4, 4));
    assert_eq!(char_overlap("abc", "xyz"), (0, 6));
    assert_eq!(char_overlap("", ""), (0, 0));
    assert_eq!(char_overlap("abcd", "abef"), (2, 6));
    assert!(is_similar("let x = 1;", "let x = 2;"));
    assert!(is_similar("", ""));
    assert!(!is_similar("abcd", "abef"));
    assert!(!is_similar("ab", "bc"));
}

#[test]
fn compute_diff_changes_in_order() {
    let a = vec!["same", "let x = 1;", "aaaa", "gone"];
    let b = vec!["same", "let x = 2;", "zzzz"];
    let r = compute_diff(&a, &b);
    assert_eq!(r.changes.len(), 4);
    assert!(matches!(&r.changes[0], DiffChange::Modified(2, x, y) if x == "let x = 1;" && y == "let x = 2;"));
    assert!(matches!(&r.changes[1], DiffChange::Removed(3, x) if x == "aaaa"));
    assert!(matches!(&r.changes[2], DiffChange::Added(3, x) if x == "zzzz"));
    assert!(matches!(&r.changes[3], DiffChange::Removed(4, x) if x == "gone"));
    assert_eq!((r.added, r.removed, r.modified), (1, 2, 1));
    // additions minus removals is the change in line count
    assert_eq!(r.added as i64 - r.removed as i64, b.len() as i64 - a.len() as i64);
}

#[test]
fn diff_report_lines() {
    let a = vec!["let x = 1;", "old"];
    let b = vec!["let x = 2;", "old", "new line"];
    let r = compute_diff(&a, &b);
    let report = diff_report("a.txt", "b.txt", &r);
    assert_eq!(
        report,
        "📊 a.txt → b.txt\n   +1 added, -0 removed, ~1 modified\n\n~   1 let x = 1; → let x = 2;\n+   3 new line\n"
    );
}

#[test]
fn diff_report_lists_modified_only_changes() {
    let r = compute_diff(&["let x = 1;"], &["let x = 2;"]);
    assert_eq!(
        diff_report("a", "b", &r),
        "📊 a → b\n   +0 added, -0 removed, ~1 modified\n\n~   1 let x = 1; → let x = 2;\n"
    );
    let same = compute_diff(&["x"], &["x"]);
    assert_eq!(diff_report("a", "b", &same), "✅ Files are identical");
}

#[test]
fn diff_files_output_status() {
    assert_eq!(
        diff_files_output("f1", "f2", "let x = 1;\n", "let x = 2;\n"),
        (
            "📊 f1 → f2\n   +0 added, -0 removed, ~1 modified\n\n~   1 let x = 1; → let x = 2;\n".to_string(),
            1
        )
    );
    assert_eq!(
        diff_files_output("f1", "f2", "a\r\nb\n", "a\nb"),
        ("✅ Files are identical\n".to_string(), 0)
    );
    let r = compare_texts("a\nb\nc\n", "a\n");
    assert_eq!((r.added, r.removed, r.modified), (0, 2, 0));
}

#[test]
fn diff_report_caps_at_fifty_changes() {
    let a: Vec<&str> = Vec::new();
    let lines: Vec<String> = (0..60).map(|i| format!("l{}", i)).collect();
    let b: Vec<&str> = lines.iter().map(|s| s.as_str()).collect();
    let r = compute_diff(&a, &b);
    let report = diff_report("a", "b", &r);
    assert!(report.ends_with("+  50 l49\n... +10 more changes"));
}

#[test]
fn condense_exact_summary() {
    let diff = "diff --git a/x.rs b/x.rs\n--- a/x.rs\n+++ b/x.rs\n+one\n-two\r\n context\n";
    assert_eq!(condense_unified_diff(diff), "📄 x.rs (+1 -1)\n  +one\n  -two");
}

#[test]
fn condense_caps_shown_changes() {
    let mut diff = String::from("+++ b/big.rs\n");
    for i in 0..20 {
        diff.push_str(&format!("+line {}\n", i));
    }
    let out = condense_unified_diff(&diff);
    let lines: Vec<&str> = out.lines().collect();
    assert_eq!(lines[0], "📄 big.rs (+20 -0)");
    assert_eq!(lines.len(), 12);
    assert_eq!(lines[11], "  ... +10 more");
}

#[test]
fn condense_marker_counts_all_suppressed_lines() {
    let diff = "+++ b/f.rs\n".to_string() + &(0..20).map(|i| format!("+l{i}\n")).collect::<String>();
    let expected = "📄 f.rs (+20 -0)\n".to_string()
        + &(0..10).map(|i| format!("  +l{i}\n")).collect::<String>()
        + "  ... +10 more";
    assert_eq!(condense_unified_diff(&diff), expected);
}
