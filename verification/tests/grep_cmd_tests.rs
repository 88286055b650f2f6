use rtk::grep_cmd::{
    clean_line, compact_path, grep_fallback_args, grep_print, grep_safe_args, group_grep_output,
    has_format_flag, locate_pattern, no_match_message, parse_grep_line, pattern_dialect,
    pattern_display, rg_args, rg_user_args, strip_grep_only_flags, token_has_format_flag,
    translate_grep_pattern, wants_no_filename, ContextRegex, GREP_MAX_PER_FILE,
};

fn sv(args: &[&str]) -> Vec<String> {
    args.iter().map(|s| s.to_string()).collect()
}

#[test]
fn test_clean_line() {
    let line = "            const result = someFunction();";
    let cleaned = clean_line(line, 50, None, "result");
    assert!(!cleaned.starts_with(' '));
    assert!(cleaned.len() <= 50);
}

#[test]
fn test_parse_grep_line_with_filename() {
    let parsed = parse_grep_line("src/foo.py:42:    return x", "fallback.py");
    assert_eq!(parsed, Some(("src/foo.py".to_string(), 42, "    return x")));
}

#[test]
fn test_parse_grep_line_single_file_no_colon() {
    let parsed = parse_grep_line("3:        ta = TypeAdapter(int)", "test.py");
    assert_eq!(parsed, Some(("test.py".to_string(), 3, "        ta = TypeAdapter(int)")));
}

#[test]
fn test_parse_grep_line_single_file_colon_in_content() {
    let parsed = parse_grep_line("2:    def test_messages(self):", "test.py");
    assert_eq!(
        parsed,
        Some(("test.py".to_string(), 2, "    def test_messages(self):"))
    );
}

#[test]
fn test_parse_grep_line_filename_and_colon_content() {
    let parsed = parse_grep_line(r#"a.py:4:    return ta.model_validate({"k": "v"})"#, "x");
    assert_eq!(
        parsed,
        Some((
            "a.py".to_string(),
            4,
            r#"    return ta.model_validate({"k": "v"})"#
        ))
    );
}

#[test]
fn test_parse_grep_line_non_numeric_dropped() {
    assert_eq!(parse_grep_line("not a grep line", "x"), None);
}

#[test]
fn test_compact_path() {
    let path = "/Users/patrick/dev/project/src/components/Button.tsx";
    let compact = compact_path(path);
    assert!(compact.len() <= 60);
}

#[test]
fn test_locate_pattern_flags_before_pattern() {
    let (idx, pat, path) = locate_pattern(&sv(&["-li", "foo", "--type", "py"]));
    assert_eq!(pat.as_deref(), Some("foo"));
    assert_eq!(idx, Some(1));
    assert_eq!(path, ".");
}

#[test]
fn test_locate_pattern_value_flag_not_mistaken_for_pattern() {
    let (_, pat, path) = locate_pattern(&sv(&["-g", "*.py", "needle", "src/"]));
    assert_eq!(pat.as_deref(), Some("needle"));
    assert_eq!(path, "src/");
}

#[test]
fn test_locate_pattern_simple_pattern_and_path() {
    let (idx, pat, path) = locate_pattern(&sv(&["needle", "src/"]));
    assert_eq!(idx, Some(0));
    assert_eq!(pat.as_deref(), Some("needle"));
    assert_eq!(path, "src/");
}

#[test]
fn test_locate_pattern_double_dash_forces_positional() {
    let (_, pat, _) = locate_pattern(&sv(&["--", "-weird-pattern"]));
    assert_eq!(pat.as_deref(), Some("-weird-pattern"));
}

#[test]
fn test_strip_grep_only_bundle_prevents_replace_mangling() {
    assert_eq!(strip_grep_only_flags("-rn").as_deref(), Some("-n"));
    assert_eq!(strip_grep_only_flags("-rln").as_deref(), Some("-ln"));
    assert_eq!(strip_grep_only_flags("-Rn").as_deref(), Some("-n"));
    assert_eq!(strip_grep_only_flags("-rni").as_deref(), Some("-ni"));
}

#[test]
fn test_strip_grep_only_extended_regex_ere() {
    assert_eq!(strip_grep_only_flags("-nE").as_deref(), Some("-n"));
    assert_eq!(strip_grep_only_flags("-E"), None);
    assert_eq!(strip_grep_only_flags("--extended-regexp"), None);
    assert_eq!(strip_grep_only_flags("-rE"), None);
    assert_eq!(strip_grep_only_flags("-Ei").as_deref(), Some("-i"));
}

#[test]
fn test_strip_grep_only_standalone_dissolves() {
    assert_eq!(strip_grep_only_flags("-r"), None);
    assert_eq!(strip_grep_only_flags("-R"), None);
    assert_eq!(strip_grep_only_flags("--recursive"), None);
    assert_eq!(strip_grep_only_flags("--dereference-recursive"), None);
}

#[test]
fn test_strip_grep_no_filename_h_prevents_rg_help_dump() {
    assert_eq!(strip_grep_only_flags("-rhoE").as_deref(), Some("-o"));
    assert_eq!(strip_grep_only_flags("-h"), None);
    assert_eq!(strip_grep_only_flags("-rh"), None);
    assert_eq!(strip_grep_only_flags("-hn").as_deref(), Some("-n"));
    assert_eq!(strip_grep_only_flags("-ehello").as_deref(), Some("-ehello"));
}

#[test]
fn test_wants_no_filename_detects_short_h() {
    assert!(wants_no_filename(&sv(&["-rhoE", "pat", "dir"])));
    assert!(wants_no_filename(&sv(&["-h", "pat"])));
    assert!(wants_no_filename(&sv(&["-oh", "pat"])));
    assert!(!wants_no_filename(&sv(&["-rn", "pat"])));
    assert!(!wants_no_filename(&sv(&["-ehello", "f"])));
    assert!(!wants_no_filename(&sv(&["--no-filename", "pat"])));
}

#[test]
fn test_strip_grep_only_preserves_value_flags_and_their_values() {
    assert_eq!(strip_grep_only_flags("-tpy").as_deref(), Some("-tpy"));
    assert_eq!(strip_grep_only_flags("-A3").as_deref(), Some("-A3"));
    assert_eq!(strip_grep_only_flags("-eRARE").as_deref(), Some("-eRARE"));
    assert_eq!(strip_grep_only_flags("-li").as_deref(), Some("-li"));
    assert_eq!(strip_grep_only_flags("--type").as_deref(), Some("--type"));
}

#[test]
fn test_grep_safe_args_strips_rg_only_flags() {
    let safe = grep_safe_args(&sv(&["-i", "--type", "py", "needle", "-g", "*.rs"]));
    assert_eq!(safe, sv(&["-i", "needle"]));
}

#[test]
fn test_grep_safe_args_keeps_grep_compatible_flags() {
    let safe = grep_safe_args(&sv(&["-i", "-w", "needle"]));
    assert_eq!(safe, sv(&["-i", "-w", "needle"]));
}

#[test]
fn test_clean_line_multibyte() {
    let line = "  สวัสดีครับ นี่คือข้อความที่ยาวมากสำหรับทดสอบ  ";
    let cleaned = clean_line(line, 20, None, "ครับ");
    assert!(!cleaned.is_empty());
}

#[test]
fn test_clean_line_emoji() {
    let line = "🎉🎊🎈🎁🎂🎄 some text 🎃🎆🎇✨";
    let cleaned = clean_line(line, 15, None, "text");
    assert!(!cleaned.is_empty());
}

#[test]
fn test_bre_alternation_translated() {
    let pattern = r"fn foo\|pub.*bar";
    let rg_pattern = translate_grep_pattern(pattern, true);
    assert_eq!(rg_pattern, "fn foo|pub.*bar");
}

#[test]
fn test_recursive_flag_stripped() {
    let extra_args: Vec<String> = vec!["-r".to_string(), "-i".to_string()];
    let filtered: Vec<String> = extra_args
        .iter()
        .filter_map(|a| strip_grep_only_flags(a))
        .collect();
    assert_eq!(filtered.len(), 1);
    assert_eq!(filtered[0], "-i");
}

#[test]
fn test_grep_overflow_uses_uncapped_total() {
    let per_file = GREP_MAX_PER_FILE;
    let total_matches = per_file + 42;
    let overflow = total_matches - per_file;
    assert_eq!(overflow, 42, "overflow must equal true suppressed count");
    let hypothetical_cap = per_file + 5;
    let capped = total_matches.min(hypothetical_cap);
    let wrong_overflow = capped - per_file;
    assert_ne!(
        wrong_overflow, overflow,
        "capping before subtraction gives wrong overflow"
    );
}

#[test]
fn test_format_flag_detects_count() {
    assert!(has_format_flag(&["-c".to_string()]));
    assert!(has_format_flag(&["--count".to_string()]));
}

#[test]
fn test_format_flag_detects_files_with_matches() {
    assert!(has_format_flag(&["-l".to_string()]));
    assert!(has_format_flag(&["--files-with-matches".to_string()]));
}

#[test]
fn test_format_flag_detects_files_without_match() {
    assert!(has_format_flag(&["-L".to_string()]));
    assert!(has_format_flag(&["--files-without-match".to_string()]));
}

#[test]
fn test_format_flag_detects_only_matching() {
    assert!(has_format_flag(&["-o".to_string()]));
    assert!(has_format_flag(&["--only-matching".to_string()]));
}

#[test]
fn test_format_flag_detects_null() {
    assert!(has_format_flag(&["-Z".to_string()]));
    assert!(has_format_flag(&["--null".to_string()]));
}

#[test]
fn test_format_flag_ignores_normal_flags() {
    assert!(!has_format_flag(&[
        "-i".to_string(),
        "-w".to_string(),
        "-A".to_string(),
        "3".to_string(),
    ]));
}

#[test]
fn test_format_flag_detects_combined_short_bundle() {
    assert!(has_format_flag(&["-li".to_string()]));
    assert!(has_format_flag(&["-rl".to_string()]));
}

#[test]
fn test_format_flag_value_in_bundle_not_misread() {
    assert!(!token_has_format_flag("-tlog"));
    assert!(!token_has_format_flag("-A3"));
}

#[test]
fn test_rg_always_has_line_numbers() {
    // The regrouping path always asks rg for line numbers and file names.
    let args = sv(&["NONEXISTENT_PATTERN_12345", "."]);
    let user = rg_user_args(&args, Some(0));
    let rg = rg_args(&args, &user);
    assert_eq!(rg[0], "-n");
    assert!(rg.contains(&"--no-heading".to_string()));
}

#[test]
fn test_rg_no_ignore_vcs_flag_accepted() {
    // Both layouts pass --no-ignore-vcs so .gitignore'd files are searched, as grep -r does.
    let args = sv(&["NONEXISTENT_PATTERN_12345", "."]);
    let user = rg_user_args(&args, Some(0));
    assert!(rg_args(&args, &user).contains(&"--no-ignore-vcs".to_string()));
    let counted = sv(&["-c", "NONEXISTENT_PATTERN_12345", "."]);
    let user = rg_user_args(&counted, Some(1));
    assert!(rg_args(&counted, &user).contains(&"--no-ignore-vcs".to_string()));
}

// --- further cases ---

#[test]
fn parse_grep_line_bare_number_has_empty_content() {
    assert_eq!(parse_grep_line("42", "f.rs"), Some(("f.rs".to_string(), 42, "")));
}

#[test]
fn parse_grep_line_accepts_plus_sign_like_usize_parse() {
    assert_eq!(parse_grep_line("+7:x", "f.rs"), Some(("f.rs".to_string(), 7, "x")));
    assert_eq!(parse_grep_line("-7:x", "f.rs"), None);
}

#[test]
fn parse_grep_line_overflowing_number_is_not_a_line_number() {
    assert_eq!(parse_grep_line("99999999999999999999999:x", "f.rs"), None);
}

#[test]
fn parse_grep_line_roundtrip_file_line_content() {
    let line = format!("{}:{}:{}", "dir/a.rs", 1234, "x: y: z");
    assert_eq!(
        parse_grep_line(&line, "d"),
        Some(("dir/a.rs".to_string(), 1234, "x: y: z"))
    );
}

#[test]
fn compact_path_exact_shape() {
    let path = "/Users/patrick/dev/project/src/components/Button.tsx";
    assert_eq!(compact_path(path), "/.../components/Button.tsx");
    assert_eq!(compact_path("short/path.rs"), "short/path.rs");
    let long_flat = "a_very_long_file_name_without_any_slashes_at_all_here.rs";
    assert_eq!(compact_path(long_flat), long_flat);
}

#[test]
fn clean_line_cuts_around_pattern() {
    let line = format!("{}needle{}", "a".repeat(40), "b".repeat(40));
    let cleaned = clean_line(&line, 20, None, "NEEDLE");
    assert_eq!(cleaned, format!("...{}needle{}...", "a".repeat(6), "b".repeat(8)));
}

#[test]
fn clean_line_pattern_absent_keeps_head() {
    let line = "x".repeat(30);
    assert_eq!(clean_line(&line, 10, None, "zzz"), format!("{}...", "x".repeat(7)));
}

#[test]
fn clean_line_pattern_at_end_keeps_tail() {
    let line = format!("{}end", "a".repeat(30));
    assert_eq!(clean_line(&line, 10, None, "end"), format!("...{}end", "a".repeat(7)));
}

#[test]
fn clean_line_uses_short_regex_match() {
    let re = ContextRegex::new(r"fn \w+").unwrap();
    let line = format!("   pub fn handler() {{ {} }}", "x".repeat(100));
    assert_eq!(clean_line(&line, 20, Some(&re), "handler"), "fn handler");
}

#[test]
fn format_flag_long_unknown_is_not_format() {
    assert!(!token_has_format_flag("--color"));
    assert!(!token_has_format_flag("pattern"));
    assert!(token_has_format_flag("-ic"));
}

#[test]
fn grep_safe_args_keeps_value_given_with_equals() {
    let safe = grep_safe_args(&sv(&["--type=py", "needle", "--glob", "*.rs", "src"]));
    assert_eq!(safe, sv(&["needle", "src"]));
}

#[test]
fn rg_user_args_fix_grep_isms() {
    let args = sv(&["-rn", r"a\|b", "src", "-E"]);
    let (idx, _, _) = locate_pattern(&args);
    assert_eq!(rg_user_args(&args, idx), sv(&["-n", "a|b", "src"]));
}

#[test]
fn rg_args_format_mode_honours_no_filename() {
    let args = sv(&["-rhoE", "pat", "dir"]);
    let (idx, _, _) = locate_pattern(&args);
    let user = rg_user_args(&args, idx);
    assert_eq!(
        rg_args(&args, &user),
        sv(&["--no-heading", "--no-ignore-vcs", "--no-filename", "-o", "pat", "dir"])
    );
}

#[test]
fn grep_fallback_prefixes_recursive_flags() {
    let user = sv(&["-i", "--type", "py", "needle"]);
    assert_eq!(grep_fallback_args(&user), sv(&["-rn", "-H", "-i", "needle"]));
}

#[test]
fn messages_for_no_match() {
    assert_eq!(pattern_display(&None), "?");
    assert_eq!(no_match_message(&pattern_display(&Some("foo".to_string()))), "0 matches for 'foo'");
}

#[test]
fn group_output_sorts_files_and_caps() {
    let out = "b.rs:2:two\na.rs:1:one\nb.rs:3:three\nnot a match\na.rs:9:nine\n";
    let r = group_grep_output(out, ".", "o", 3, 1);
    assert_eq!(r, "5 matches in 2 files:\n\na.rs:1:one\nb.rs:2:two\n[+3 more]\n");
}

#[test]
fn group_output_all_shown() {
    let out = "x.rs:1:  alpha  \n";
    let r = group_grep_output(out, ".", "alpha", 10, 10);
    assert_eq!(r, "1 matches in 1 files:\n\nx.rs:1:alpha\n");
}

#[test]
fn group_output_uses_default_path_for_bare_lines() {
    let r = group_grep_output("7:hit\n", "only.txt", "hit", 10, 10);
    assert_eq!(r, "1 matches in 1 files:\n\nonly.txt:7:hit\n");
}

#[test]
fn rg_command_for_recursive_flags_first() {
    // `grep -rn def .` must not hand rg its `-r` (= --replace), which would rewrite matches.
    let args = sv(&["-rn", "def", "."]);
    let (idx, pat, path) = locate_pattern(&args);
    assert_eq!((idx, pat.as_deref(), path.as_str()), (Some(1), Some("def"), "."));
    let user = rg_user_args(&args, idx);
    assert_eq!(
        rg_args(&args, &user),
        sv(&["-n", "-H", "--no-heading", "--no-ignore-vcs", "-n", "def", "."])
    );
}

#[test]
fn rg_command_for_extended_regex_flag() {
    // `grep -nE pat` must not hand rg its `-E` (= --encoding), which would eat the pattern.
    let args = sv(&["-nE", "foo|bar", "."]);
    let (idx, _, _) = locate_pattern(&args);
    let user = rg_user_args(&args, idx);
    assert_eq!(user, sv(&["-n", "foo|bar", "."]));
}

#[test]
fn rg_command_for_type_and_files_with_matches() {
    // `grep -l pat --type py` lists files: format mode, rg's own layout, --type kept for rg.
    let args = sv(&["-l", "reasoning", "--type", "py"]);
    let (idx, pat, path) = locate_pattern(&args);
    assert_eq!((pat.as_deref(), path.as_str()), (Some("reasoning"), "."));
    let user = rg_user_args(&args, idx);
    assert_eq!(
        rg_args(&args, &user),
        sv(&["--no-heading", "--no-ignore-vcs", "-l", "reasoning", "--type", "py"])
    );
    assert_eq!(grep_fallback_args(&user), sv(&["-rn", "-H", "-l", "reasoning"]));
}

#[test]
fn stripping_keeps_format_requests() {
    for tok in ["-rl", "-rhoE", "-rn", "-tlog", "--count", "--recursive", "-h"] {
        let stripped = strip_grep_only_flags(tok);
        let after = stripped.as_deref().map(token_has_format_flag).unwrap_or(false);
        assert_eq!(token_has_format_flag(tok), after, "{}", tok);
    }
}

#[test]
fn context_regex_rejects_invalid_pattern() {
    assert!(ContextRegex::new("(").is_none());
    let re = ContextRegex::new("b+").unwrap();
    assert_eq!(re.find("abbbc").as_deref(), Some("bbb"));
    assert_eq!(re.find("xyz"), None);
}

#[test]
fn clean_line_regex_match_too_long_falls_back() {
    let re = ContextRegex::new(r"x+").unwrap();
    let line = format!("{}needle", "x".repeat(40));
    assert_eq!(clean_line(&line, 10, Some(&re), "needle"), format!("...{}needle", "x".repeat(4)));
}

#[test]
fn grep_literal_paren_reaches_rg_escaped() {
    // grep BRE: `(` is literal; rg needs `\(`.
    let args = sv(&["-c", "rpc(", "tests/fixtures/scoreboard/paren.txt"]);
    let (idx, _, _) = locate_pattern(&args);
    let user = rg_user_args(&args, idx);
    assert_eq!(
        rg_args(&args, &user),
        sv(&["--no-heading", "--no-ignore-vcs", "-c", r"rpc\(", "tests/fixtures/scoreboard/paren.txt"])
    );
}

#[test]
fn grep_fixed_strings_pattern_is_verbatim() {
    let args = sv(&["-Fc", "rpc(", "paren.txt"]);
    assert_eq!(pattern_dialect(&args), (true, false));
    let (idx, _, _) = locate_pattern(&args);
    assert_eq!(rg_user_args(&args, idx), sv(&["-Fc", "rpc(", "paren.txt"]));
    let bar = sv(&["-F", r"a\|b", "f"]);
    let (idx, _, _) = locate_pattern(&bar);
    assert_eq!(rg_user_args(&bar, idx)[1], r"a\|b");
}

#[test]
fn grep_pattern_translation_cases() {
    assert_eq!(translate_grep_pattern(r"\(ab\)*c(d)", true), r"(ab)*c\(d\)");
    assert_eq!(translate_grep_pattern(r"a\\|b", true), r"a\|b");
    assert_eq!(translate_grep_pattern(r"a\\|b", false), r"a\|b");
    assert_eq!(translate_grep_pattern(r"\(x\|y\)", true), r"(x|y)");
    assert_eq!(translate_grep_pattern(r"\\(", true), r"\\\(");
    assert_eq!(translate_grep_pattern(r"\.x\|y", true), r"\.x|y");
    assert_eq!(translate_grep_pattern(r"(a|b)\|c", false), r"(a|b)|c");
    assert_eq!(translate_grep_pattern("end\\", true), "end\\");
}

#[test]
fn grep_extended_regex_keeps_groups() {
    let args = sv(&["-nE", "(foo|bar)", "."]);
    assert_eq!(pattern_dialect(&args), (false, false));
    let (idx, _, _) = locate_pattern(&args);
    assert_eq!(rg_user_args(&args, idx), sv(&["-n", "(foo|bar)", "."]));
}

#[test]
fn rg_files_is_a_format_flag() {
    assert!(token_has_format_flag("--files"));
    let args = sv(&["--files", "src"]);
    assert!(has_format_flag(&args));
    let (out, err) = grep_print(&args, false, "src/a.rs\nsrc/b.rs\n", "", 0, 200, 25);
    assert_eq!(out, "src/a.rs\nsrc/b.rs\n");
    assert_eq!(err, "");
}

#[test]
fn grep_print_no_match_and_errors() {
    let args = sv(&["needle", "src"]);
    let (out, err) = grep_print(&args, false, "  \n", " bad regex \n", 2, 200, 25);
    assert_eq!(out, "0 matches for 'needle'\n");
    assert_eq!(err, "bad regex\n");
    let (out, err) = grep_print(&args, false, "", "", 1, 200, 25);
    assert_eq!(out, "0 matches for 'needle'\n");
    assert_eq!(err, "");
}

#[test]
fn grep_print_redirect_is_verbatim() {
    let args = sv(&["needle", "src"]);
    let raw = "src/a.rs:1:needle\n";
    let (out, err) = grep_print(&args, true, raw, " warn ", 0, 200, 25);
    assert_eq!(out, raw);
    assert_eq!(err, "warn");
}

#[test]
fn grep_print_groups_matches() {
    let args = sv(&["needle", "src"]);
    let (out, err) = grep_print(&args, false, "src/a.rs:1:  needle  \n", "", 0, 200, 25);
    assert_eq!(out, "1 matches in 1 files:\n\nsrc/a.rs:1:needle\n");
    assert_eq!(err, "");
}
