//! Laws of grep argument handling and result grouping.

use vstd::prelude::*;
use crate::utils::{byte_len, ellipsis, find, first_n, lines, trim};
use crate::grep_cmd::{
    asks_letter, context_cut, grouped_header, grouped_output, is_piece_of, lowercase, more_line,
    of_file, parse_line_spec, parsed_entries, render_rows, rows_for, sorted_files, EntryView,
    GREP_MAX_LINE_LEN, fixed_strings, forwarded_pattern, is_flag_token, non_basic_regex,
    positional_indices, positionals, replace_bar,
};

verus! {

/// A flag that takes a value, given as its own token, consumes the token that
/// follows it: in `f v p d` with `p` and `d` no flags, the pattern is `p` and
/// the search path is `d`, whatever `v` is.
pub proof fn lemma_value_flag_consumes_next(
    f: Seq<char>,
    v: Seq<char>,
    p: Seq<char>,
    d: Seq<char>,
)
    requires
        ({
            ||| f == "-A"@
            ||| f == "--after-context"@
            ||| f == "-B"@
            ||| f == "--before-context"@
            ||| f == "-C"@
            ||| f == "--context"@
            ||| f == "-m"@
            ||| f == "--max-count"@
            ||| f == "-e"@
            ||| f == "--regexp"@
            ||| f == "-f"@
            ||| f == "--file"@
            ||| f == "-g"@
            ||| f == "--glob"@
            ||| f == "--iglob"@
            ||| f == "-t"@
            ||| f == "--type"@
            ||| f == "-T"@
            ||| f == "--type-not"@
            ||| f == "--type-add"@
            ||| f == "--max-columns"@
            ||| f == "--color"@
            ||| f == "--colors"@
            ||| f == "--encoding"@
            ||| f == "--sort"@
            ||| f == "--sortr"@
            ||| f == "--pre"@
            ||| f == "--threads"@
            ||| f == "-j"@
            ||| f == "--replace"@
            ||| f == "--context-separator"@
        }),
        p.len() == 0 || p[0] != '-',
        d.len() == 0 || d[0] != '-',
    ensures
        positional_indices(seq![f, v, p, d]) == seq![2int, 3int],
{
    let args = seq![f, v, p, d];
    if f == "-A"@ {
        reveal_strlit("-A");
    } else if f == "--after-context"@ {
        reveal_strlit("--after-context");
    } else if f == "-B"@ {
        reveal_strlit("-B");
    } else if f == "--before-context"@ {
        reveal_strlit("--before-context");
    } else if f == "-C"@ {
        reveal_strlit("-C");
    } else if f == "--context"@ {
        reveal_strlit("--context");
    } else if f == "-m"@ {
        reveal_strlit("-m");
    } else if f == "--max-count"@ {
        reveal_strlit("--max-count");
    } else if f == "-e"@ {
        reveal_strlit("-e");
    } else if f == "--regexp"@ {
        reveal_strlit("--regexp");
    } else if f == "-f"@ {
        reveal_strlit("-f");
    } else if f == "--file"@ {
        reveal_strlit("--file");
    } else if f == "-g"@ {
        reveal_strlit("-g");
    } else if f == "--glob"@ {
        reveal_strlit("--glob");
    } else if f == "--iglob"@ {
        reveal_strlit("--iglob");
    } else if f == "-t"@ {
        reveal_strlit("-t");
    } else if f == "--type"@ {
        reveal_strlit("--type");
    } else if f == "-T"@ {
        reveal_strlit("-T");
    } else if f == "--type-not"@ {
        reveal_strlit("--type-not");
    } else if f == "--type-add"@ {
        reveal_strlit("--type-add");
    } else if f == "--max-columns"@ {
        reveal_strlit("--max-columns");
    } else if f == "--color"@ {
        reveal_strlit("--color");
    } else if f == "--colors"@ {
        reveal_strlit("--colors");
    } else if f == "--encoding"@ {
        reveal_strlit("--encoding");
    } else if f == "--sort"@ {
        reveal_strlit("--sort");
    } else if f == "--sortr"@ {
        reveal_strlit("--sortr");
    } else if f == "--pre"@ {
        reveal_strlit("--pre");
    } else if f == "--threads"@ {
        reveal_strlit("--threads");
    } else if f == "-j"@ {
        reveal_strlit("-j");
    } else if f == "--replace"@ {
        reveal_strlit("--replace");
    } else if f == "--context-separator"@ {
        reveal_strlit("--context-separator");
    }
    assert(f.len() > 1 && f[0] == '-');
    assert(!f.contains('='));
    assert(is_flag_token(args[0]));
    assert(args[0] != seq!['-', '-']);
    assert(args[2] != seq!['-', '-'] && !is_flag_token(args[2]));
    assert(args[3] != seq!['-', '-'] && !is_flag_token(args[3]));
    assert(positionals(args, 4, false) == Seq::<int>::empty());
    assert(positionals(args, 3, false) == seq![3int]);
    assert(positionals(args, 2, false) =~= seq![2int, 3int]);
    assert(positionals(args, 0, false) == positionals(args, 2, false));
}

/// Without a backslash a pattern has no `\|` to rewrite: it stays as it is.
pub proof fn lemma_replace_bar_without_backslash(a: Seq<char>)
    requires
        !a.contains('\\'),
    ensures
        replace_bar(a) == a,
    decreases a.len(),
{
    if a.len() > 0 {
        assert(!a.drop_first().contains('\\')) by {
            if a.drop_first().contains('\\') {
                let i = choose|i: int| 0 <= i < a.drop_first().len() && a.drop_first()[i] == '\\';
                assert(a[i + 1] == '\\');
            }
        }
        lemma_replace_bar_without_backslash(a.drop_first());
        assert(a[0] != '\\');
        assert(replace_bar(a) =~= a);
    }
}

/// Under grep's `-E` or `-P` (short, bundled or long), and without `-F`, the
/// pattern is no basic regex: only its `\|` are rewritten on the way to rg,
/// so its groups and parentheses reach rg as they stand.
pub proof fn lemma_extended_pattern_keeps_groups(args: Seq<Seq<char>>, k: int, a: Seq<char>)
    requires
        0 <= k < args.len(),
        args[k] == "--extended-regexp"@ || args[k] == "--perl-regexp"@ || asks_letter(args[k], 'E')
            || asks_letter(args[k], 'P'),
        forall|j: int|
            0 <= j < args.len() ==> #[trigger] args[j] != "--fixed-strings"@ && !asks_letter(
                args[j],
                'F',
            ),
    ensures
        !fixed_strings(args),
        non_basic_regex(args),
        forwarded_pattern(
            a,
            fixed_strings(args),
            !fixed_strings(args) && !non_basic_regex(args),
        ) == replace_bar(a),
        !a.contains('\\') ==> forwarded_pattern(
            a,
            fixed_strings(args),
            !fixed_strings(args) && !non_basic_regex(args),
        ) == a,
{
    assert(args[k] == args[k]);
    if !a.contains('\\') {
        lemma_replace_bar_without_backslash(a);
    }
}

/// A long line cut around a position `p` shows the `m` characters from `p`
/// on, whenever they fit in the window: `m` at most `max_len - max_len / 3`.
pub proof fn lemma_context_cut_covers(t: Seq<char>, max_len: nat, p: int, m: nat)
    requires
        0 <= p,
        p + m <= t.len(),
        m + max_len / 3 <= max_len,
    ensures
        is_piece_of(t.subrange(p, p + m), context_cut(t, max_len, p)),
{
    let len = t.len();
    let start0: int = if p >= max_len / 3 { p - max_len / 3 } else { 0 };
    let end: int = if start0 + max_len < len { start0 + max_len } else { len as int };
    let start: int = if end == len {
        if end >= max_len { end - max_len } else { 0 }
    } else {
        start0
    };
    let slice = t.subrange(start, end);
    assert(start <= p && p + m <= end);
    let cut = context_cut(t, max_len, p);
    let off: int = if start > 0 { 3 } else { 0 };
    if start > 0 && end < len {
        assert(cut == ellipsis() + slice + ellipsis());
    } else if start > 0 {
        assert(cut == ellipsis() + slice);
    } else {
        assert(cut == slice + ellipsis());
    }
    let i = off + p - start;
    assert(cut.subrange(i, i + m) =~= t.subrange(p, p + m));
}

/// How a grouped row shows the result line it comes from: the line's file and
/// number, and its trimmed content, cut when longer than the line limit to a
/// window around the first case-insensitive occurrence of the search pattern;
/// the window then shows that occurrence whenever it fits.
pub open spec fn shows_line(
    line: Seq<char>,
    path: Seq<char>,
    pattern: Seq<char>,
    e: EntryView,
) -> bool {
    match parse_line_spec(line, path) {
        Some((f, n, c)) => {
            let t = trim(c);
            let at = find(lowercase(t), lowercase(pattern));
            let max_len = GREP_MAX_LINE_LEN as nat;
            &&& e.0 == f
            &&& e.1 == n
            &&& byte_len(t) <= max_len ==> e.2 == t
            &&& byte_len(t) > max_len ==> e.2 == context_cut(t, max_len, at)
            &&& byte_len(t) > max_len && 0 <= at && at + pattern.len() <= t.len()
                && pattern.len() + max_len / 3 <= max_len ==> is_piece_of(
                t.subrange(at, at + pattern.len()),
                e.2,
            )
        },
        None => false,
    }
}

/// Whether `e` shows one of the result lines `ls` (see `shows_line`).
pub open spec fn shows_some_line(
    ls: Seq<Seq<char>>,
    path: Seq<char>,
    pattern: Seq<char>,
    e: EntryView,
) -> bool {
    exists|k: int| 0 <= k < ls.len() && shows_line(#[trigger] ls[k], path, pattern, e)
}

proof fn lemma_entries_show_lines(ls: Seq<Seq<char>>, path: Seq<char>, pattern: Seq<char>)
    ensures
        forall|e: EntryView|
            #[trigger] parsed_entries(ls, path, pattern).contains(e) ==> shows_some_line(
                ls,
                path,
                pattern,
                e,
            ),
    decreases ls.len(),
{
    if ls.len() > 0 {
        let init = ls.drop_last();
        lemma_entries_show_lines(init, path, pattern);
        let r = parsed_entries(init, path, pattern);
        assert forall|e: EntryView| #[trigger]
            parsed_entries(ls, path, pattern).contains(e) implies shows_some_line(
            ls,
            path,
            pattern,
            e,
        ) by {
            let k = ls.len() - 1;
            if r.contains(e) {
                assert(shows_some_line(init, path, pattern, e));
                let j = choose|j: int| 0 <= j < init.len() && shows_line(#[trigger] init[j], path, pattern, e);
                assert(ls[j] == init[j]);
            } else {
                match parse_line_spec(ls.last(), path) {
                    Some((f, n, c)) => {
                        let t = trim(c);
                        let at = find(lowercase(t), lowercase(pattern));
                        let max_len = GREP_MAX_LINE_LEN as nat;
                        let idx = choose|idx: int|
                            0 <= idx < parsed_entries(ls, path, pattern).len()
                                && parsed_entries(ls, path, pattern)[idx] == e;
                        if idx < r.len() {
                            assert(r[idx] == e);
                        }
                        if byte_len(t) > max_len && 0 <= at && at + pattern.len() <= t.len()
                            && pattern.len() + max_len / 3 <= max_len {
                            lemma_context_cut_covers(t, max_len, at, pattern.len());
                        }
                        assert(shows_line(ls[k], path, pattern, e));
                    },
                    None => {},
                }
            }
        }
    }
}

proof fn lemma_rows_are_entries(es: Seq<EntryView>, files: Seq<Seq<char>>, per_file: nat)
    ensures
        forall|e: EntryView| #[trigger] rows_for(es, files, per_file).contains(e) ==> es.contains(e),
    decreases files.len(),
{
    if files.len() > 0 {
        lemma_rows_are_entries(es, files.drop_last(), per_file);
        let a = rows_for(es, files.drop_last(), per_file);
        let of = of_file(es, files.last());
        let b = first_n(of, per_file);
        assert forall|e: EntryView| #[trigger] rows_for(es, files, per_file).contains(e) implies es.contains(e) by {
            let idx = choose|idx: int| 0 <= idx < (a + b).len() && (a + b)[idx] == e;
            if idx < a.len() {
                assert(a[idx] == e);
                assert(a.contains(e));
            } else {
                assert(b[idx - a.len()] == e);
                assert(of[idx - a.len()] == e);
                assert(of.contains(e));
                es.lemma_filter_contains_rev(|x: EntryView| x.0 == files.last(), e);
            }
        }
    }
}

/// Every row of the grouped output shows one of rg's result lines, cleaned
/// with the search pattern (see `shows_line`): the output is a header, the
/// rows, and the count of what was not shown.
pub proof fn lemma_grouped_rows_show_lines(
    stdout: Seq<char>,
    path: Seq<char>,
    pattern: Seq<char>,
    max_results: nat,
    per_file: nat,
)
    ensures
        exists|files: nat, rows: Seq<EntryView>|
            #![trigger grouped_header(lines(stdout).len(), files), render_rows(rows)]
            grouped_output(stdout, path, pattern, max_results, per_file) == grouped_header(
                lines(stdout).len(),
                files,
            ) + render_rows(rows) + more_line(lines(stdout).len(), rows.len()) && forall|j: int|
                0 <= j < rows.len() ==> shows_some_line(lines(stdout), path, pattern, #[trigger] rows[j]),
{
    let ls = lines(stdout);
    let es = parsed_entries(ls, path, pattern);
    let files = sorted_files(es);
    let rows = rows_for(es, files, per_file);
    let shown = if max_results <= rows.len() { max_results } else { rows.len() };
    let shown_rows = rows.take(shown as int);
    lemma_entries_show_lines(ls, path, pattern);
    lemma_rows_are_entries(es, files, per_file);
    assert forall|j: int| 0 <= j < shown_rows.len() implies shows_some_line(ls, path, pattern, #[trigger] shown_rows[j]) by {
        assert(shown_rows[j] == rows[j]);
        assert(rows.contains(rows[j]));
        assert(es.contains(rows[j]));
    }
    assert(shown_rows.len() == shown);
    assert(grouped_output(stdout, path, pattern, max_results, per_file) == grouped_header(
        ls.len(),
        files.len(),
    ) + render_rows(shown_rows) + more_line(ls.len(), shown_rows.len()));
}

} // verus!
