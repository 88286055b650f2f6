//! grep/rg argument handling and result grouping.

use vstd::prelude::*;
use crate::utils::{
    append_chars, append_str, byte_len, byte_len_at_most, chars_of, contains_char, decimal,
    ellipsis, eq_str, find, find_char_from, find_chars, first_n, index_of, lemma_index_of_found,
    lemma_parse_decimal, lemma_seq_lt_irreflexive, lemma_seq_lt_transitive, lemma_sorted_unique,
    lines, lines_of, order_chars, parse_usize, parse_usize_chars, push_decimal, push_ellipsis,
    seq_lt, slice_chars, split, split_chars, strictly_sorted, string_from_chars, string_of_str,
    trim, trim_chars, trim_str, views,
};

verus! {

/// The view of an optional string.
pub open spec fn opt_view(o: Option<String>) -> Option<Seq<char>> {
    match o {
        Some(s) => Some(s@),
        None => None,
    }
}

/// The views of a list of strings.
pub open spec fn arg_views(args: Seq<String>) -> Seq<Seq<char>> {
    args.map_values(|a: String| a@)
}

// ---------------------------------------------------------------------------
// Flag tables
// ---------------------------------------------------------------------------

/// grep/rg flags that take the following token as their value.
pub open spec fn is_value_flag(s: Seq<char>) -> bool {
    ||| s == "-A"@
    ||| s == "--after-context"@
    ||| s == "-B"@
    ||| s == "--before-context"@
    ||| s == "-C"@
    ||| s == "--context"@
    ||| s == "-m"@
    ||| s == "--max-count"@
    ||| s == "-e"@
    ||| s == "--regexp"@
    ||| s == "-f"@
    ||| s == "--file"@
    ||| s == "-g"@
    ||| s == "--glob"@
    ||| s == "--iglob"@
    ||| s == "-t"@
    ||| s == "--type"@
    ||| s == "-T"@
    ||| s == "--type-not"@
    ||| s == "--type-add"@
    ||| s == "--max-columns"@
    ||| s == "--color"@
    ||| s == "--colors"@
    ||| s == "--encoding"@
    ||| s == "--sort"@
    ||| s == "--sortr"@
    ||| s == "--pre"@
    ||| s == "--threads"@
    ||| s == "-j"@
    ||| s == "--replace"@
    ||| s == "--context-separator"@
}

/// Whether `s` is one of the value-taking flags.
pub fn value_flag(s: &[char]) -> (b: bool)
    ensures
        b == is_value_flag(s@),
{
    eq_str(s, "-A") || eq_str(s, "--after-context") || eq_str(s, "-B") || eq_str(
        s,
        "--before-context",
    ) || eq_str(s, "-C") || eq_str(s, "--context") || eq_str(s, "-m") || eq_str(
        s,
        "--max-count",
    ) || eq_str(s, "-e") || eq_str(s, "--regexp") || eq_str(s, "-f") || eq_str(s, "--file")
        || eq_str(s, "-g") || eq_str(s, "--glob") || eq_str(s, "--iglob") || eq_str(s, "-t")
        || eq_str(s, "--type") || eq_str(s, "-T") || eq_str(s, "--type-not") || eq_str(
        s,
        "--type-add",
    ) || eq_str(s, "--max-columns") || eq_str(s, "--color") || eq_str(s, "--colors") || eq_str(
        s,
        "--encoding",
    ) || eq_str(s, "--sort") || eq_str(s, "--sortr") || eq_str(s, "--pre") || eq_str(
        s,
        "--threads",
    ) || eq_str(s, "-j") || eq_str(s, "--replace") || eq_str(s, "--context-separator")
}

/// Short flags that consume a value: the rest of a bundle after one of them
/// is that value, not more flags (`-A3`, `-tpy`).
pub open spec fn is_short_value_char(c: char) -> bool {
    c == 'A' || c == 'B' || c == 'C' || c == 'm' || c == 'e' || c == 'f' || c == 'g' || c == 't'
        || c == 'T' || c == 'j' || c == 'M'
}

/// Short flags that change the output away from `file:line:content`.
pub open spec fn is_format_char(c: char) -> bool {
    c == 'l' || c == 'L' || c == 'c' || c == 'o' || c == 'Z'
}

/// grep letters that must not reach rg: recursive (`r`, `R`), extended regex
/// (`E`) and no-filename (`h`).
pub open spec fn is_grep_only_char(c: char) -> bool {
    c == 'r' || c == 'R' || c == 'E' || c == 'h'
}

/// Position of the first value-taking letter in a short-flag bundle, or its length.
pub open spec fn value_char_pos(rest: Seq<char>) -> int
    decreases rest.len(),
{
    if rest.len() == 0 {
        0
    } else if is_short_value_char(rest[0]) {
        0
    } else {
        1 + value_char_pos(rest.drop_first())
    }
}

/// The flag letters of a short bundle: those before the first value-taking letter.
pub open spec fn short_letters(rest: Seq<char>) -> Seq<char> {
    rest.take(value_char_pos(rest))
}

proof fn lemma_value_char_pos(rest: Seq<char>)
    ensures
        0 <= value_char_pos(rest) <= rest.len(),
        forall|j: int| 0 <= j < value_char_pos(rest) ==> !is_short_value_char(#[trigger] rest[j]),
        value_char_pos(rest) < rest.len() ==> is_short_value_char(rest[value_char_pos(rest)]),
    decreases rest.len(),
{
    if rest.len() > 0 && !is_short_value_char(rest[0]) {
        lemma_value_char_pos(rest.drop_first());
        assert forall|j: int| 0 <= j < value_char_pos(rest) implies !is_short_value_char(
            #[trigger] rest[j],
        ) by {
            if j > 0 {
                assert(rest[j] == rest.drop_first()[j - 1]);
            }
        }
    }
}

proof fn lemma_value_char_pos_at(rest: Seq<char>, k: int)
    requires
        0 <= k <= rest.len(),
        forall|j: int| 0 <= j < k ==> !is_short_value_char(#[trigger] rest[j]),
        k < rest.len() ==> is_short_value_char(rest[k]),
    ensures
        value_char_pos(rest) == k,
    decreases k,
{
    if k > 0 {
        assert forall|j: int| 0 <= j < k - 1 implies !is_short_value_char(
            #[trigger] rest.drop_first()[j],
        ) by {
            assert(rest.drop_first()[j] == rest[j + 1]);
        }
        assert(!is_short_value_char(rest[0]));
        lemma_value_char_pos_at(rest.drop_first(), k - 1);
    }
}

fn short_value_char(c: char) -> (b: bool)
    ensures
        b == is_short_value_char(c),
{
    c == 'A' || c == 'B' || c == 'C' || c == 'm' || c == 'e' || c == 'f' || c == 'g' || c == 't'
        || c == 'T' || c == 'j' || c == 'M'
}

/// The position (in `t`) where the value of a short bundle `t = "-..."` starts,
/// or `t.len()` when no letter takes a value.
fn value_start(t: &[char]) -> (k: usize)
    requires
        t@.len() >= 1,
    ensures
        1 <= k <= t@.len(),
        k - 1 == value_char_pos(t@.skip(1)),
{
    let mut k: usize = 1;
    while k < t.len() && !short_value_char(t[k])
        invariant
            1 <= k <= t@.len(),
            forall|j: int| 1 <= j < k ==> !is_short_value_char(#[trigger] t@[j]),
        decreases t@.len() - k,
    {
        k = k + 1;
    }
    proof {
        let rest = t@.skip(1);
        assert forall|j: int| 0 <= j < k - 1 implies !is_short_value_char(#[trigger] rest[j]) by {
            assert(rest[j] == t@[j + 1]);
        }
        if k < t@.len() {
            assert(rest[k - 1] == t@[k as int]);
        }
        lemma_value_char_pos_at(rest, k - 1);
    }
    k
}

/// Whether `tok` begins with `--`.
pub open spec fn is_long(tok: Seq<char>) -> bool {
    tok.len() >= 2 && tok[0] == '-' && tok[1] == '-'
}

/// Whether `tok` begins with `-`.
pub open spec fn is_dashed(tok: Seq<char>) -> bool {
    tok.len() >= 1 && tok[0] == '-'
}

// ---------------------------------------------------------------------------
// Output-format detection
// ---------------------------------------------------------------------------

/// Whether one token asks for an output that is not `file:line:content`
/// (counts, file lists, path lists, only-matching, NUL-separated).
pub open spec fn requests_format(tok: Seq<char>) -> bool {
    if is_long(tok) {
        let long = tok.skip(2);
        long == "count"@ || long == "files-with-matches"@ || long == "files-without-match"@
            || long == "only-matching"@ || long == "null"@ || long == "files"@
    } else if is_dashed(tok) {
        exists|i: int|
            0 <= i < short_letters(tok.skip(1)).len() && is_format_char(
                #[trigger] short_letters(tok.skip(1))[i],
            )
    } else {
        false
    }
}

fn token_format_chars(t: &[char]) -> (b: bool)
    ensures
        b == requests_format(t@),
{
    if t.len() >= 2 && t[0] == '-' && t[1] == '-' {
        let long = slice_chars(t, 2, t.len());
        proof {
            assert(long@ =~= t@.skip(2));
        }
        return eq_str(long.as_slice(), "count") || eq_str(long.as_slice(), "files-with-matches")
            || eq_str(long.as_slice(), "files-without-match") || eq_str(
            long.as_slice(),
            "only-matching",
        ) || eq_str(long.as_slice(), "null") || eq_str(long.as_slice(), "files");
    }
    if t.len() >= 1 && t[0] == '-' {
        let k = value_start(t);
        let ghost letters = short_letters(t@.skip(1));
        let mut i: usize = 1;
        while i < k
            invariant
                1 <= i <= k <= t@.len(),
                k - 1 == value_char_pos(t@.skip(1)),
                letters == short_letters(t@.skip(1)),
                letters.len() == k - 1,
                is_dashed(t@),
                !is_long(t@),
                forall|j: int| 1 <= j < i ==> !is_format_char(#[trigger] t@[j]),
            decreases k - i,
        {
            proof {
                assert(letters[i - 1] == t@[i as int]);
            }
            let c = t[i];
            if c == 'l' || c == 'L' || c == 'c' || c == 'o' || c == 'Z' {
                assert(is_format_char(letters[i - 1]));
                return true;
            }
            i = i + 1;
        }
        proof {
            assert forall|j: int| 0 <= j < letters.len() implies !is_format_char(
                #[trigger] letters[j],
            ) by {
                assert(letters[j] == t@[j + 1]);
            }
        }
        return false;
    }
    false
}

/// Does this single token request a format that cannot be regrouped as
/// `file:line:content`? Long flags and short bundles (`-li` holds `-l`) count;
/// the value of a value-taking short flag does not (`-tlog` is `--type log`).
pub fn token_has_format_flag(tok: &str) -> (b: bool)
    ensures
        b == requests_format(tok@),
{
    let t = chars_of(tok);
    token_format_chars(t.as_slice())
}

/// Whether any argument requests an output format that cannot be regrouped.
pub fn has_format_flag(args: &[String]) -> (b: bool)
    ensures
        b == exists|k: int| 0 <= k < args@.len() && requests_format(#[trigger] args@[k]@),
{
    let mut i: usize = 0;
    while i < args.len()
        invariant
            0 <= i <= args@.len(),
            forall|k: int| 0 <= k < i ==> !requests_format(#[trigger] args@[k]@),
        decreases args@.len() - i,
    {
        if token_has_format_flag(args[i].as_str()) {
            return true;
        }
        i = i + 1;
    }
    false
}

/// Whether a token is a short bundle holding the flag letter `c`; a letter
/// inside a value (`-ehello`) is data, not a flag.
pub open spec fn asks_letter(tok: Seq<char>, c: char) -> bool {
    is_dashed(tok) && !is_long(tok) && short_letters(tok.skip(1)).contains(c)
}

/// Whether a token is a short bundle holding grep's `-h` (no file names).
pub open spec fn asks_no_filename(tok: Seq<char>) -> bool {
    asks_letter(tok, 'h')
}

fn token_asks_letter(t: &[char], c: char) -> (b: bool)
    ensures
        b == asks_letter(t@, c),
{
    if !(t.len() >= 1 && t[0] == '-') {
        return false;
    }
    if t.len() >= 2 && t[1] == '-' {
        return false;
    }
    let k = value_start(t);
    let ghost letters = short_letters(t@.skip(1));
    let mut i: usize = 1;
    while i < k
        invariant
            1 <= i <= k <= t@.len(),
            k - 1 == value_char_pos(t@.skip(1)),
            letters == short_letters(t@.skip(1)),
            letters.len() == k - 1,
            is_dashed(t@),
            !is_long(t@),
            forall|j: int| 1 <= j < i ==> t@[j] != c,
        decreases k - i,
    {
        proof {
            assert(letters[i - 1] == t@[i as int]);
        }
        if t[i] == c {
            assert(letters[i - 1] == c);
            return true;
        }
        i = i + 1;
    }
    proof {
        assert forall|j: int| 0 <= j < letters.len() implies letters[j] != c by {
            assert(letters[j] == t@[j + 1]);
        }
    }
    false
}

/// Did the caller pass grep's short `-h` (--no-filename), alone or in a bundle?
pub fn wants_no_filename(args: &[String]) -> (b: bool)
    ensures
        b == exists|k: int| 0 <= k < args@.len() && asks_no_filename(#[trigger] args@[k]@),
{
    let mut i: usize = 0;
    while i < args.len()
        invariant
            0 <= i <= args@.len(),
            forall|k: int| 0 <= k < i ==> !asks_no_filename(#[trigger] args@[k]@),
        decreases args@.len() - i,
    {
        let t = chars_of(args[i].as_str());
        if token_asks_letter(t.as_slice(), 'h') {
            return true;
        }
        i = i + 1;
    }
    false
}

// ---------------------------------------------------------------------------
// Stripping grep-only flags
// ---------------------------------------------------------------------------

/// `s` without the grep-only letters `r`, `R`, `E`, `h`.
pub open spec fn without_grep_only(s: Seq<char>) -> Seq<char>
    decreases s.len(),
{
    if s.len() == 0 {
        s
    } else {
        let r = without_grep_only(s.drop_last());
        if is_grep_only_char(s.last()) {
            r
        } else {
            r.push(s.last())
        }
    }
}

/// What `strip_grep_only_flags` makes of a token: the long forms of recursive
/// and extended-regexp vanish; in a short bundle the letters `r`, `R`, `E`, `h`
/// before any value are dropped, the value kept verbatim, and a bundle left
/// with no letter vanishes; anything else is kept.
pub open spec fn strip_spec(tok: Seq<char>) -> Option<Seq<char>> {
    if is_long(tok) {
        let long = tok.skip(2);
        if long == "recursive"@ || long == "dereference-recursive"@ || long
            == "extended-regexp"@ {
            None
        } else {
            Some(tok)
        }
    } else if is_dashed(tok) {
        let rest = tok.skip(1);
        let k = value_char_pos(rest);
        let out = seq!['-'] + without_grep_only(rest.take(k)) + rest.skip(k);
        if out.len() == 1 {
            None
        } else {
            Some(out)
        }
    } else {
        Some(tok)
    }
}

fn strip_chars(t: &[char]) -> (r: Option<Vec<char>>)
    ensures
        r matches Some(o) ==> strip_spec(t@) == Some(o@),
        r is None ==> strip_spec(t@) is None,
{
    if t.len() >= 2 && t[0] == '-' && t[1] == '-' {
        let long = slice_chars(t, 2, t.len());
        proof {
            assert(long@ =~= t@.skip(2));
        }
        if eq_str(long.as_slice(), "recursive") || eq_str(long.as_slice(), "dereference-recursive")
            || eq_str(long.as_slice(), "extended-regexp") {
            return None;
        }
        return Some(slice_chars(t, 0, t.len()));
    }
    if t.len() >= 1 && t[0] == '-' {
        let k = value_start(t);
        let ghost rest = t@.skip(1);
        let mut out: Vec<char> = Vec::new();
        out.push('-');
        let mut i: usize = 1;
        while i < k
            invariant
                1 <= i <= k <= t@.len(),
                rest == t@.skip(1),
                out@ == seq!['-'] + without_grep_only(rest.take(i - 1)),
            decreases k - i,
        {
            let c = t[i];
            proof {
                assert(rest.take(i as int).drop_last() =~= rest.take(i - 1));
                assert(rest.take(i as int).last() == c);
            }
            if !(c == 'r' || c == 'R' || c == 'E' || c == 'h') {
                out.push(c);
                proof {
                    assert(out@ =~= seq!['-'] + without_grep_only(rest.take(i as int)));
                }
            }
            i = i + 1;
        }
        let tail = slice_chars(t, k, t.len());
        append_chars(&mut out, tail.as_slice());
        proof {
            assert(tail@ =~= rest.skip(k - 1));
        }
        if out.len() == 1 {
            return None;
        }
        return Some(out);
    }
    Some(slice_chars(t, 0, t.len()))
}

/// Removes grep flags that must not reach ripgrep verbatim: `-r`/`-R`
/// (recursive; rg's `-r` is `--replace`), `-E` (ERE; rg's `-E` is
/// `--encoding`) and `-h` (no filename; rg's `-h` is `--help`). Short bundles
/// lose only those letters (`-rn` gives `-n`), a value-taking letter's value is
/// kept verbatim (`-eRARE`), and `None` means nothing is left (`-r`).
pub fn strip_grep_only_flags(tok: &str) -> (r: Option<String>)
    ensures
        r matches Some(o) ==> strip_spec(tok@) == Some(o@),
        r is None ==> strip_spec(tok@) is None,
{
    let t = chars_of(tok);
    match strip_chars(t.as_slice()) {
        Some(o) => Some(string_from_chars(o.as_slice())),
        None => None,
    }
}

// ---------------------------------------------------------------------------
// Locating the pattern
// ---------------------------------------------------------------------------

/// A flag token: a `-` followed by at least one more character.
pub open spec fn is_flag_token(a: Seq<char>) -> bool {
    a.len() > 1 && a[0] == '-'
}

/// Indices, from `i` on, of the positional tokens: those that are neither a
/// flag nor the value of a value-taking flag given as the following token.
/// After a bare `--` every token is positional.
pub open spec fn positionals(args: Seq<Seq<char>>, i: int, only_positional: bool) -> Seq<int>
    decreases args.len() + 1 - i,
{
    if i < 0 || i >= args.len() {
        Seq::<int>::empty()
    } else {
        let a = args[i];
        if !only_positional && a == seq!['-', '-'] {
            positionals(args, i + 1, true)
        } else if !only_positional && is_flag_token(a) {
            if !a.contains('=') && is_value_flag(a) {
                positionals(args, i + 2, only_positional)
            } else {
                positionals(args, i + 1, only_positional)
            }
        } else {
            seq![i] + positionals(args, i + 1, only_positional)
        }
    }
}

/// The positional tokens of a whole argument list.
pub open spec fn positional_indices(args: Seq<Seq<char>>) -> Seq<int> {
    positionals(args, 0, false)
}

proof fn lemma_positionals_bounds(args: Seq<Seq<char>>, i: int, po: bool)
    ensures
        forall|k: int|
            0 <= k < positionals(args, i, po).len() ==> i <= #[trigger] positionals(
                args,
                i,
                po,
            )[k] < args.len(),
    decreases args.len() + 1 - i,
{
    if 0 <= i < args.len() {
        let a = args[i];
        if !po && a == seq!['-', '-'] {
            lemma_positionals_bounds(args, i + 1, true);
            assert(positionals(args, i, po) == positionals(args, i + 1, true));
        } else if !po && is_flag_token(a) {
            if !a.contains('=') && is_value_flag(a) {
                lemma_positionals_bounds(args, i + 2, po);
                assert(positionals(args, i, po) == positionals(args, i + 2, po));
            } else {
                lemma_positionals_bounds(args, i + 1, po);
                assert(positionals(args, i, po) == positionals(args, i + 1, po));
            }
        } else {
            lemma_positionals_bounds(args, i + 1, po);
            let rest = positionals(args, i + 1, po);
            assert(positionals(args, i, po) == seq![i] + rest);
            assert forall|k: int| 0 <= k < (seq![i] + rest).len() implies i <= #[trigger] (seq![
                i,
            ] + rest)[k] < args.len() by {
                if k > 0 {
                    assert((seq![i] + rest)[k] == rest[k - 1]);
                }
            }
        }
    }
}

/// Locates the positional pattern and search path in a raw grep/rg argument
/// list: the pattern is the first positional token (see `positionals`), the
/// path the second, or `.` when there is none.
pub fn locate_pattern(args: &[String]) -> (r: (Option<usize>, Option<String>, String))
    ensures
        ({
            let p = positional_indices(arg_views(args@));
            &&& p.len() == 0 ==> r.0 is None && r.1 is None
            &&& p.len() > 0 ==> r.0 == Some(p[0] as usize) && opt_view(r.1) == Some(args@[p[0]]@)
            &&& p.len() > 1 ==> r.2@ == args@[p[1]]@
            &&& p.len() <= 1 ==> r.2@ == "."@
        }),
{
    let ghost av = arg_views(args@);
    let mut pattern_idx: Option<usize> = None;
    let mut pattern: Option<String> = None;
    let mut path: Option<String> = None;
    let mut positional_only = false;
    let mut i: usize = 0;
    let ghost mut seen: Seq<int> = Seq::empty();
    proof {
        lemma_positionals_bounds(av, 0, false);
    }
    while i < args.len()
        invariant
            av == arg_views(args@),
            i <= args@.len(),
            positional_indices(av) == seen + positionals(av, i as int, positional_only),
            seen.len() == 0 ==> pattern_idx is None && pattern is None,
            seen.len() > 0 ==> pattern_idx == Some(seen[0] as usize) && opt_view(pattern) == Some(
                av[seen[0]],
            ),
            seen.len() <= 1 ==> path is None,
            seen.len() > 1 ==> opt_view(path) == Some(av[seen[1]]),
            forall|k: int| 0 <= k < seen.len() ==> 0 <= #[trigger] seen[k] < i,
        decreases args@.len() - i,
    {
        let t = chars_of(args[i].as_str());
        proof {
            assert(av[i as int] == t@);
        }
        if !positional_only && t.len() == 2 && t[0] == '-' && t[1] == '-' {
            proof {
                assert(t@ =~= seq!['-', '-']);
            }
            positional_only = true;
            i = i + 1;
            continue;
        }
        if !positional_only && t.len() > 1 && t[0] == '-' {
            if !contains_char(t.as_slice(), '=') && value_flag(t.as_slice()) {
                i = i + 1;
                if i < args.len() {
                    i = i + 1;
                } else {
                    assert(positionals(av, i + 1, positional_only) =~= positionals(
                        av,
                        i as int,
                        positional_only,
                    ));
                }
            } else {
                i = i + 1;
            }
            continue;
        }
        proof {
            if !positional_only {
                assert(t@ != seq!['-', '-']) by {
                    if t@ == seq!['-', '-'] {
                        assert(t@.len() == 2 && t@[0] == '-' && t@[1] == '-');
                    }
                }
            }
            assert(seen.push(i as int) + positionals(av, i + 1, positional_only) =~= seen + (seq![
                i as int,
            ] + positionals(av, i + 1, positional_only)));
        }
        if pattern.is_none() {
            pattern_idx = Some(i);
            pattern = Some(args[i].clone());
        } else if path.is_none() {
            path = Some(args[i].clone());
        }
        proof {
            seen = seen.push(i as int);
        }
        i = i + 1;
    }
    proof {
        assert(seen + positionals(av, i as int, positional_only) =~= seen);
    }
    let path_out = match path {
        Some(p) => p,
        None => string_of_str("."),
    };
    (pattern_idx, pattern, path_out)
}

// ---------------------------------------------------------------------------
// Arguments for the grep fallback
// ---------------------------------------------------------------------------

/// The part of a token before its first `=` (the whole token when it has none).
pub open spec fn before_eq(a: Seq<char>) -> Seq<char> {
    if a.contains('=') {
        a.take(index_of(a, '='))
    } else {
        a
    }
}

/// Flags that only ripgrep understands.
pub open spec fn is_rg_only(b: Seq<char>) -> bool {
    ||| b == "--type"@
    ||| b == "-t"@
    ||| b == "--type-not"@
    ||| b == "-T"@
    ||| b == "--type-add"@
    ||| b == "--glob"@
    ||| b == "-g"@
    ||| b == "--iglob"@
    ||| b == "--no-ignore-vcs"@
    ||| b == "--no-heading"@
    ||| b == "--json"@
    ||| b == "--pre"@
}

fn rg_only(b: &[char]) -> (r: bool)
    ensures
        r == is_rg_only(b@),
{
    eq_str(b, "--type") || eq_str(b, "-t") || eq_str(b, "--type-not") || eq_str(b, "-T")
        || eq_str(b, "--type-add") || eq_str(b, "--glob") || eq_str(b, "-g") || eq_str(
        b,
        "--iglob",
    ) || eq_str(b, "--no-ignore-vcs") || eq_str(b, "--no-heading") || eq_str(b, "--json")
        || eq_str(b, "--pre")
}

/// The arguments, from `i` on, that the grep fallback keeps: rg-only flags
/// are dropped, and so is the following token when such a flag takes a value
/// and was not given it with `=`.
pub open spec fn grep_safe_from(args: Seq<Seq<char>>, i: int, skip_next: bool) -> Seq<
    Seq<char>,
>
    decreases args.len() - i,
{
    if i < 0 || i >= args.len() {
        Seq::<Seq<char>>::empty()
    } else if skip_next {
        grep_safe_from(args, i + 1, false)
    } else {
        let a = args[i];
        let b = before_eq(a);
        if is_rg_only(b) {
            grep_safe_from(args, i + 1, !a.contains('=') && is_value_flag(b))
        } else {
            seq![a] + grep_safe_from(args, i + 1, false)
        }
    }
}

/// Strips rg-only flags (and their separate-token values) so the grep
/// fallback, taken only when ripgrep is absent, does not abort on them.
pub fn grep_safe_args(args: &[String]) -> (out: Vec<String>)
    ensures
        arg_views(out@) == grep_safe_from(arg_views(args@), 0, false),
{
    let ghost av = arg_views(args@);
    let mut out: Vec<String> = Vec::new();
    let mut skip_next = false;
    let mut i: usize = 0;
    while i < args.len()
        invariant
            av == arg_views(args@),
            0 <= i <= args@.len(),
            grep_safe_from(av, 0, false) == arg_views(out@) + grep_safe_from(
                av,
                i as int,
                skip_next,
            ),
        decreases args@.len() - i,
    {
        if skip_next {
            skip_next = false;
            i = i + 1;
            continue;
        }
        let t = chars_of(args[i].as_str());
        proof {
            assert(av[i as int] == t@);
        }
        let has_eq = contains_char(t.as_slice(), '=');
        let bare = if has_eq {
            let e = find_char_from(t.as_slice(), '=', 0);
            proof {
                assert(t@.skip(0) =~= t@);
            }
            slice_chars(t.as_slice(), 0, e)
        } else {
            slice_chars(t.as_slice(), 0, t.len())
        };
        proof {
            assert(bare@ =~= before_eq(t@));
        }
        if rg_only(bare.as_slice()) {
            if !has_eq && value_flag(bare.as_slice()) {
                skip_next = true;
            }
            i = i + 1;
            continue;
        }
        let ghost before = arg_views(out@);
        out.push(args[i].clone());
        proof {
            assert(arg_views(out@) =~= before.push(t@));
            assert(before.push(t@) + grep_safe_from(av, i + 1, false) =~= before + (seq![t@]
                + grep_safe_from(av, i + 1, false)));
        }
        i = i + 1;
    }
    out
}

// ---------------------------------------------------------------------------
// Parsing result lines
// ---------------------------------------------------------------------------

/// How one grep/rg result line reads as `(file, line_number, content)`.
/// `file:line:content` when the field after the first colon is a line number;
/// otherwise `line:content` with `default_path` as the file, when the first
/// field is a line number (the content then runs from the first colon on, and
/// is empty when the line has no colon); otherwise no match.
pub open spec fn parse_line_spec(line: Seq<char>, default_path: Seq<char>) -> Option<
    (Seq<char>, nat, Seq<char>),
> {
    let c1 = index_of(line, ':');
    if c1 < 0 {
        match parse_usize(line) {
            Some(n) => Some((default_path, n, Seq::<char>::empty())),
            None => None,
        }
    } else {
        let first = line.take(c1);
        let after = line.skip(c1 + 1);
        let c2 = index_of(after, ':');
        if c2 >= 0 && parse_usize(after.take(c2)) is Some {
            Some((first, parse_usize(after.take(c2))->0, after.skip(c2 + 1)))
        } else if parse_usize(first) is Some {
            Some((default_path, parse_usize(first)->0, after))
        } else {
            None
        }
    }
}

/// The view of a parsed result line.
pub open spec fn parsed_view(r: Option<(String, usize, &str)>) -> Option<(Seq<char>, nat, Seq<char>)> {
    match r {
        Some((f, n, c)) => Some((f@, n as nat, c@)),
        None => None,
    }
}

/// Parses one grep/rg result line into `(file, line_number, content)`; the
/// layout is told by which leading field is a line number, so a colon in the
/// content is never taken for a separator of the file name.
pub fn parse_grep_line<'a>(line: &'a str, default_path: &str) -> (r: Option<(String, usize, &'a str)>)
    ensures
        parsed_view(r) == parse_line_spec(line@, default_path@),
{
    let lc = chars_of(line);
    let n = lc.len();
    let c1 = find_char_from(lc.as_slice(), ':', 0);
    proof {
        assert(lc@.skip(0) =~= lc@);
    }
    if c1 == n {
        proof {
            assert(lc@.subrange(0, n as int) =~= lc@);
        }
        return match parse_usize_chars(lc.as_slice(), 0, n) {
            Some(v) => Some((string_of_str(default_path), v, line.substring_char(n, n))),
            None => None,
        };
    }
    let c2 = find_char_from(lc.as_slice(), ':', c1 + 1);
    let ghost after = lc@.skip(c1 + 1);
    proof {
        assert(lc@.take(c1 as int) =~= lc@.subrange(0, c1 as int));
        if c2 < n {
            assert(after.take(c2 - c1 - 1) =~= lc@.subrange(c1 + 1, c2 as int));
            assert(after.skip(c2 - c1) =~= lc@.subrange(c2 + 1, n as int));
        }
        assert(after =~= lc@.subrange(c1 + 1, n as int));
    }
    if c2 < n {
        if let Some(v) = parse_usize_chars(lc.as_slice(), c1 + 1, c2) {
            let file = slice_chars(lc.as_slice(), 0, c1);
            return Some((string_from_chars(file.as_slice()), v, line.substring_char(c2 + 1, n)));
        }
    }
    match parse_usize_chars(lc.as_slice(), 0, c1) {
        Some(v) => Some((string_of_str(default_path), v, line.substring_char(c1 + 1, n))),
        None => None,
    }
}

// ---------------------------------------------------------------------------
// Shortening paths
// ---------------------------------------------------------------------------

/// A path of more than 50 bytes and more than three `/`-separated parts is
/// shown as its first part, `/.../`, and its last two parts.
pub open spec fn compact_path_spec(path: Seq<char>) -> Seq<char> {
    let parts = split(path, '/');
    if byte_len(path) <= 50 || parts.len() <= 3 {
        path
    } else {
        parts[0] + "/.../"@ + parts[parts.len() - 2] + seq!['/'] + parts.last()
    }
}

/// Shortens a long path to `first/.../parent/name`.
pub fn compact_path(path: &str) -> (r: String)
    ensures
        r@ == compact_path_spec(path@),
{
    let pc = chars_of(path);
    if byte_len_at_most(pc.as_slice(), 50) {
        return string_of_str(path);
    }
    let parts = split_chars(pc.as_slice(), '/');
    if parts.len() <= 3 {
        return string_of_str(path);
    }
    let k = parts.len();
    let mut out: Vec<char> = Vec::new();
    append_chars(&mut out, parts[0].as_slice());
    append_str(&mut out, "/.../");
    append_chars(&mut out, parts[k - 2].as_slice());
    out.push('/');
    append_chars(&mut out, parts[k - 1].as_slice());
    proof {
        let v = views(parts@);
        assert(v[0] == parts@[0]@);
        assert(v[k - 2] == parts@[k - 2]@);
        assert(v.last() == parts@[k - 1]@);
        assert(out@ =~= v[0] + "/.../"@ + v[k - 2] + seq!['/'] + v.last());
    }
    string_from_chars(out.as_slice())
}

// ---------------------------------------------------------------------------
// Cleaning match lines
// ---------------------------------------------------------------------------

/// What `str::to_lowercase` makes of a string (full Unicode lowercase mapping).
pub uninterp spec fn lowercase(s: Seq<char>) -> Seq<char>;

/// `str::to_lowercase`. Claimed: the result is `lowercase` of the argument;
/// nothing more is said of the Unicode mapping.
#[verifier::external_body]
fn to_lowercase(s: &str) -> (r: String)
    ensures
        r@ == lowercase(s@),
{
    s.to_lowercase()
}

/// Whether `regex::Regex::new` accepts a pattern.
pub uninterp spec fn regex_compiles(pattern: Seq<char>) -> bool;

/// The text of the leftmost-first match that `regex::Regex::find` reports in
/// `haystack` for the regex that `regex::Regex::new` compiles from `pattern`.
pub uninterp spec fn regex_match(pattern: Seq<char>, haystack: Seq<char>) -> Option<Seq<char>>;

/// `regex::Regex::new(pattern).is_ok()`. Claimed: it is `regex_compiles`.
#[verifier::external_body]
fn regex_is_valid(pattern: &str) -> (b: bool)
    ensures
        b == regex_compiles(pattern@),
{
    regex::Regex::new(pattern).is_ok()
}

/// `regex::Regex::new(pattern)`, then `Regex::find` on `haystack`, giving
/// the matched text (`Match::as_str`); no match when the pattern does not
/// compile. Claimed: the result is `regex_match` of the two texts, and a
/// match is a contiguous piece of the haystack. Which piece the regex picks is
/// not stated beyond the name.
#[verifier::external_body]
fn regex_find(pattern: &str, haystack: &str) -> (m: Option<String>)
    ensures
        opt_view(m) == regex_match(pattern@, haystack@),
        m matches Some(t) ==> exists|i: int, j: int|
            0 <= i <= j <= haystack@.len() && t@ == haystack@.subrange(i, j),
{
    match regex::Regex::new(pattern) {
        Ok(re) => re.find(haystack).map(|found| found.as_str().to_string()),
        Err(_) => None,
    }
}

/// A regex that picks the part of a match line worth showing, kept as its
/// pattern text (compiled with `regex::Regex::new`).
pub struct ContextRegex {
    pattern: String,
}

impl View for ContextRegex {
    type V = Seq<char>;

    closed spec fn view(&self) -> Seq<char> {
        self.pattern@
    }
}

impl ContextRegex {
    /// The context regex of `pattern`, when `regex::Regex::new` accepts it.
    pub fn new(pattern: &str) -> (r: Option<ContextRegex>)
        ensures
            r is Some <==> regex_compiles(pattern@),
            r matches Some(c) ==> c@ == pattern@,
    {
        if regex_is_valid(pattern) {
            Some(ContextRegex { pattern: string_of_str(pattern) })
        } else {
            None
        }
    }

    /// The leftmost-first match of the regex in `haystack`, as its text.
    pub fn find(&self, haystack: &str) -> (m: Option<String>)
        ensures
            opt_view(m) == regex_match(self@, haystack@),
            m matches Some(t) ==> is_piece_of(t@, haystack@),
    {
        regex_find(self.pattern.as_str(), haystack)
    }
}

/// The window of a long trimmed line `t` shown around the pattern found at
/// character `pos` (or the head of the line when `pos < 0`), with `...`
/// marking each side that was cut.
pub open spec fn context_cut(t: Seq<char>, max_len: nat, pos: int) -> Seq<char> {
    if pos < 0 {
        let keep: int = if max_len - 3 <= t.len() { max_len - 3 } else { t.len() as int };
        t.take(keep) + ellipsis()
    } else {
        let len = t.len();
        let start0: int = if pos >= max_len / 3 { pos - max_len / 3 } else { 0 };
        let end: int = if start0 + max_len < len { start0 + max_len } else { len as int };
        let start: int = if end == len {
            if end >= max_len { end - max_len } else { 0 }
        } else {
            start0
        };
        let slice = t.subrange(start, end);
        if start > 0 && end < len {
            ellipsis() + slice + ellipsis()
        } else if start > 0 {
            ellipsis() + slice
        } else {
            slice + ellipsis()
        }
    }
}

/// A result line cleaned for display: the regex match when one was found and
/// fits in `max_len` bytes; else the trimmed line when it fits; else a window of
/// it around the first case-insensitive occurrence of `pattern`.
pub open spec fn clean_spec(
    line: Seq<char>,
    max_len: nat,
    found: Option<Seq<char>>,
    pattern: Seq<char>,
) -> Seq<char> {
    let t = trim(line);
    if found is Some && byte_len(found->0) <= max_len {
        found->0
    } else if byte_len(t) <= max_len {
        t
    } else {
        context_cut(t, max_len, find(lowercase(t), lowercase(pattern)))
    }
}

/// Whether `m` is a contiguous piece of `s`.
pub open spec fn is_piece_of(m: Seq<char>, s: Seq<char>) -> bool {
    exists|i: int, j: int| 0 <= i <= j <= s.len() && m == s.subrange(i, j)
}

/// Whether cleaning can cut the head of a line to `max_len - 3` characters:
/// the line is too long and the pattern does not occur in it.
pub open spec fn cuts_head(line: Seq<char>, max_len: nat, pattern: Seq<char>) -> bool {
    byte_len(trim(line)) > max_len && find(lowercase(trim(line)), lowercase(pattern)) < 0
}

/// Cleans a result line for display, given what a context regex found in the
/// trimmed line (`None` when there is no regex or no match).
pub fn clean_line_with(line: &str, max_len: usize, found: Option<&str>, pattern: &str) -> (r: String)
    requires
        max_len >= 3 || !cuts_head(line@, max_len as nat, pattern@),
    ensures
        r@ == clean_spec(
            line@,
            max_len as nat,
            match found {
                Some(m) => Some(m@),
                None => None,
            },
            pattern@,
        ),
{
    let lc = chars_of(line);
    let t = trim_chars(lc.as_slice());
    if let Some(m) = found {
        let mc = chars_of(m);
        if byte_len_at_most(mc.as_slice(), max_len) {
            return string_of_str(m);
        }
    }
    if byte_len_at_most(t.as_slice(), max_len) {
        return string_from_chars(t.as_slice());
    }
    let t_str = string_from_chars(t.as_slice());
    let lower_s = to_lowercase(t_str.as_str());
    let lower = chars_of(lower_s.as_str());
    let pl_s = to_lowercase(pattern);
    let pl = chars_of(pl_s.as_str());
    let char_len = t.len();
    let mut out: Vec<char> = Vec::new();
    match find_chars(lower.as_slice(), pl.as_slice()) {
        None => {
            let head = if max_len - 3 <= char_len {
                slice_chars(t.as_slice(), 0, max_len - 3)
            } else {
                slice_chars(t.as_slice(), 0, char_len)
            };
            append_chars(&mut out, head.as_slice());
            push_ellipsis(&mut out);
        },
        Some(char_pos) => {
            let third = max_len / 3;
            let start0 = if char_pos >= third {
                char_pos - third
            } else {
                0
            };
            let end = if max_len < char_len && start0 < char_len - max_len {
                start0 + max_len
            } else {
                char_len
            };
            let start = if end == char_len {
                if end >= max_len {
                    end - max_len
                } else {
                    0
                }
            } else {
                start0
            };
            let slice = slice_chars(t.as_slice(), start, end);
            if start > 0 && end < char_len {
                push_ellipsis(&mut out);
                append_chars(&mut out, slice.as_slice());
                push_ellipsis(&mut out);
            } else if start > 0 {
                push_ellipsis(&mut out);
                append_chars(&mut out, slice.as_slice());
            } else {
                append_chars(&mut out, slice.as_slice());
                push_ellipsis(&mut out);
            }
        },
    }
    string_from_chars(out.as_slice())
}

/// Cleans a result line for display: trims it, shows the match of
/// `context_re` in the trimmed line when it fits in `max_len` bytes, the
/// trimmed line when that fits, and otherwise a window of `max_len` characters
/// around the first case-insensitive occurrence of `pattern`, marked with `...`
/// where cut.
pub fn clean_line(line: &str, max_len: usize, context_re: Option<&ContextRegex>, pattern: &str) -> (r: String)
    requires
        max_len >= 3 || !cuts_head(line@, max_len as nat, pattern@),
    ensures
        r@ == clean_spec(
            line@,
            max_len as nat,
            match context_re {
                Some(re) => regex_match(re@, trim(line@)),
                None => None,
            },
            pattern@,
        ),
{
    match context_re {
        None => clean_line_with(line, max_len, None, pattern),
        Some(re) => {
            let lc = chars_of(line);
            let t = trim_chars(lc.as_slice());
            let t_str = string_from_chars(t.as_slice());
            match re.find(t_str.as_str()) {
                Some(m) => clean_line_with(line, max_len, Some(m.as_str()), pattern),
                None => clean_line_with(line, max_len, None, pattern),
            }
        },
    }
}

// ---------------------------------------------------------------------------
// Grouping and rendering matches
// ---------------------------------------------------------------------------

/// A parsed match: file, line number, cleaned content.
pub type EntryView = (Seq<char>, nat, Seq<char>);

/// The view of a parsed match.
pub open spec fn entry_view(e: (String, usize, String)) -> EntryView {
    (e.0@, e.1 as nat, e.2@)
}

/// The views of parsed matches.
pub open spec fn entries_view(v: Seq<(String, usize, String)>) -> Seq<EntryView> {
    v.map_values(|e: (String, usize, String)| entry_view(e))
}

/// Longest shown match line, in bytes, before it is cut around the pattern.
pub const GREP_MAX_LINE_LEN: usize = 80;

/// Default cap on the rows shown in all.
pub const GREP_MAX_RESULTS: usize = 200;

/// Default cap on the rows shown per file.
pub const GREP_MAX_PER_FILE: usize = 25;

/// The matches found in the result lines `ls`, in order, with cleaned content.
pub open spec fn parsed_entries(ls: Seq<Seq<char>>, path: Seq<char>, pattern: Seq<char>) -> Seq<
    EntryView,
>
    decreases ls.len(),
{
    if ls.len() == 0 {
        Seq::<EntryView>::empty()
    } else {
        let r = parsed_entries(ls.drop_last(), path, pattern);
        match parse_line_spec(ls.last(), path) {
            Some((f, n, c)) => r.push((f, n, clean_spec(c, GREP_MAX_LINE_LEN as nat, None, pattern))),
            None => r,
        }
    }
}

/// The file names of the matches.
pub open spec fn entry_files(es: Seq<EntryView>) -> Seq<Seq<char>> {
    es.map_values(|e: EntryView| e.0)
}

/// The distinct file names of the matches, in increasing order.
pub open spec fn sorted_files(es: Seq<EntryView>) -> Seq<Seq<char>> {
    choose|fs: Seq<Seq<char>>| strictly_sorted(fs) && fs.to_set() == entry_files(es).to_set()
}

/// The matches in file `f`, in order.
pub open spec fn of_file(es: Seq<EntryView>, f: Seq<char>) -> Seq<EntryView> {
    es.filter(|e: EntryView| e.0 == f)
}

/// The rows of `files` in turn, at most `per_file` per file.
pub open spec fn rows_for(es: Seq<EntryView>, files: Seq<Seq<char>>, per_file: nat) -> Seq<
    EntryView,
>
    decreases files.len(),
{
    if files.len() == 0 {
        Seq::<EntryView>::empty()
    } else {
        rows_for(es, files.drop_last(), per_file) + first_n(of_file(es, files.last()), per_file)
    }
}

/// One shown row: `file:line:content` with the file name compacted.
pub open spec fn render_row(e: EntryView) -> Seq<char> {
    compact_path_spec(e.0) + seq![':'] + decimal(e.1) + seq![':'] + e.2 + seq!['\n']
}

/// The shown rows, one per line.
pub open spec fn render_rows(rows: Seq<EntryView>) -> Seq<char>
    decreases rows.len(),
{
    if rows.len() == 0 {
        Seq::<char>::empty()
    } else {
        render_rows(rows.drop_last()) + render_row(rows.last())
    }
}

/// The summary line that heads the grouped output.
pub open spec fn grouped_header(total: nat, files: nat) -> Seq<char> {
    decimal(total) + " matches in "@ + decimal(files) + " files:\n\n"@
}

/// The closing line that counts what was not shown.
pub open spec fn more_line(total: nat, shown: nat) -> Seq<char> {
    if total > shown {
        "[+"@ + decimal((total - shown) as nat) + " more]\n"@
    } else {
        Seq::<char>::empty()
    }
}

/// The grouped view of rg's `file:line:content` output: a header with the
/// number of result lines and of files; then the files in increasing order,
/// each with at most `per_file` of its matches in order, and at most
/// `max_results` rows in all; then a count of the result lines not shown.
pub open spec fn grouped_output(
    stdout: Seq<char>,
    path: Seq<char>,
    pattern: Seq<char>,
    max_results: nat,
    per_file: nat,
) -> Seq<char> {
    let ls = lines(stdout);
    let es = parsed_entries(ls, path, pattern);
    let files = sorted_files(es);
    let rows = rows_for(es, files, per_file);
    let shown = if max_results <= rows.len() { max_results } else { rows.len() };
    grouped_header(ls.len(), files.len()) + render_rows(rows.take(shown as int)) + more_line(
        ls.len(),
        shown,
    )
}

proof fn lemma_of_file_push(es: Seq<EntryView>, e: EntryView, f: Seq<char>)
    ensures
        of_file(es.push(e), f) == if e.0 == f {
            of_file(es, f).push(e)
        } else {
            of_file(es, f)
        },
{
    reveal(Seq::filter);
    assert(es.push(e).drop_last() =~= es);
}

proof fn lemma_rows_for_prefix(es: Seq<EntryView>, files: Seq<Seq<char>>, per_file: nat, g: int)
    requires
        0 <= g <= files.len(),
    ensures
        rows_for(es, files.take(g), per_file).len() <= rows_for(es, files, per_file).len(),
        rows_for(es, files, per_file).take(rows_for(es, files.take(g), per_file).len() as int)
            == rows_for(es, files.take(g), per_file),
    decreases files.len() - g,
{
    if g == files.len() {
        assert(files.take(g) =~= files);
        assert(rows_for(es, files, per_file).take(rows_for(es, files, per_file).len() as int)
            =~= rows_for(es, files, per_file));
    } else {
        lemma_rows_for_prefix(es, files, per_file, g + 1);
        assert(files.take(g + 1).drop_last() =~= files.take(g));
        let a = rows_for(es, files.take(g), per_file);
        let b = rows_for(es, files.take(g + 1), per_file);
        let all = rows_for(es, files, per_file);
        assert(b == a + first_n(of_file(es, files[g]), per_file));
        assert(all.take(a.len() as int) =~= b.take(a.len() as int));
        assert(b.take(a.len() as int) =~= a);
    }
}

/// Parses every result line and cleans the content of each match.
fn parse_entries(ls: &Vec<Vec<char>>, path: &str, pattern: &str) -> (es: Vec<(String, usize, String)>)
    ensures
        entries_view(es@) == parsed_entries(views(ls@), path@, pattern@),
{
    let mut es: Vec<(String, usize, String)> = Vec::new();
    let mut k: usize = 0;
    while k < ls.len()
        invariant
            0 <= k <= ls@.len(),
            entries_view(es@) == parsed_entries(views(ls@).take(k as int), path@, pattern@),
        decreases ls@.len() - k,
    {
        let line = string_from_chars(ls[k].as_slice());
        proof {
            assert(views(ls@).take(k + 1).drop_last() =~= views(ls@).take(k as int));
            assert(views(ls@).take(k + 1).last() == line@);
        }
        let ghost before = entries_view(es@);
        match parse_grep_line(line.as_str(), path) {
            Some((f, n, c)) => {
                let cleaned = clean_line(c, GREP_MAX_LINE_LEN, None, pattern);
                es.push((f, n, cleaned));
                proof {
                    assert(entries_view(es@) =~= before.push(entry_view(es@.last())));
                }
            },
            None => {},
        }
        k = k + 1;
    }
    proof {
        assert(views(ls@).take(ls@.len() as int) =~= views(ls@));
    }
    es
}

/// The views of group names.
pub open spec fn group_invariant(
    es: Seq<EntryView>,
    names: Seq<Seq<char>>,
    members: Seq<Seq<EntryView>>,
) -> bool {
    &&& names.len() == members.len()
    &&& strictly_sorted(names)
    &&& names.to_set() == entry_files(es).to_set()
    &&& forall|g: int| 0 <= g < names.len() ==> #[trigger] members[g] == of_file(es, names[g])
}

/// The views of the members of each group.
pub open spec fn members_view(m: Seq<Vec<(String, usize, String)>>) -> Seq<Seq<EntryView>> {
    m.map_values(|v: Vec<(String, usize, String)>| entries_view(v@))
}

/// Groups matches by file, files in increasing order, matches in order.
fn group_entries(es: &Vec<(String, usize, String)>) -> (r: (
    Vec<Vec<char>>,
    Vec<Vec<(String, usize, String)>>,
))
    ensures
        group_invariant(entries_view(es@), views(r.0@), members_view(r.1@)),
{
    let mut names: Vec<Vec<char>> = Vec::new();
    let mut members: Vec<Vec<(String, usize, String)>> = Vec::new();
    let mut j: usize = 0;
    proof {
        assert(entry_files(entries_view(es@).take(0)).to_set() =~= Set::<Seq<char>>::empty());
        assert(views(names@).to_set() =~= Set::<Seq<char>>::empty());
    }
    while j < es.len()
        invariant
            0 <= j <= es@.len(),
            group_invariant(entries_view(es@).take(j as int), views(names@), members_view(members@)),
        decreases es@.len() - j,
    {
        let ghost ev = entries_view(es@);
        let ghost old_es = ev.take(j as int);
        let ghost e = ev[j as int];
        let ghost new_es = ev.take(j + 1);
        let ghost old_names = views(names@);
        let ghost old_members = members_view(members@);
        proof {
            assert(new_es =~= old_es.push(e));
            assert(entry_files(new_es) =~= entry_files(old_es).push(e.0));
        }
        let fc = chars_of(es[j].0.as_str());
        assert(fc@ == e.0);
        let mut pos: usize = 0;
        while pos < names.len() && order_chars(names[pos].as_slice(), fc.as_slice()) < 0
            invariant
                0 <= pos <= names@.len(),
                old_names == views(names@),
                forall|g: int| 0 <= g < pos ==> seq_lt(#[trigger] old_names[g], fc@),
            decreases names@.len() - pos,
        {
            pos = pos + 1;
        }
        let entry = (string_from_chars(fc.as_slice()), es[j].1, string_of_str(es[j].2.as_str()));
        assert(entry_view(entry) == e);
        if pos < names.len() && order_chars(names[pos].as_slice(), fc.as_slice()) == 0 {
            let mut group = members.remove(pos);
            group.push(entry);
            members.insert(pos, group);
            proof {
                assert(old_names[pos as int] == e.0);
                lemma_of_file_push(old_es, e, e.0);
                assert forall|g: int| 0 <= g < views(names@).len() implies #[trigger] members_view(
                    members@,
                )[g] == of_file(new_es, views(names@)[g]) by {
                    lemma_of_file_push(old_es, e, old_names[g]);
                    if g == pos {
                        assert(members_view(members@)[g] =~= old_members[g].push(e));
                    } else {
                        assert(members_view(members@)[g] == old_members[g]);
                    }
                }
                assert(views(names@).to_set() =~= entry_files(new_es).to_set()) by {
                    assert(old_names[pos as int] == e.0);
                    assert(old_names.to_set().contains(e.0));
                    entry_files(old_es).lemma_push_to_set_commute(e.0);
                }
            }
        } else {
            let ghost ins_pos = pos;
            proof {
                if pos < names@.len() {
                    assert(seq_lt(fc@, old_names[pos as int]));
                }
                assert forall|g: int| 0 <= g < old_names.len() implies old_names[g] != e.0 by {
                    if g < pos {
                        lemma_seq_lt_irreflexive(e.0);
                    } else if g > pos {
                        assert(seq_lt(old_names[pos as int], old_names[g]));
                        lemma_seq_lt_transitive(fc@, old_names[pos as int], old_names[g]);
                        lemma_seq_lt_irreflexive(e.0);
                    } else {
                        assert(seq_lt(fc@, old_names[g]));
                        lemma_seq_lt_irreflexive(e.0);
                    }
                }
            }
            let mut group: Vec<(String, usize, String)> = Vec::new();
            group.push(entry);
            assert(entries_view(group@) =~= seq![e]);
            names.insert(pos, fc);
            members.insert(pos, group);
            proof {
                assert(views(names@) =~= old_names.insert(ins_pos as int, e.0));
                assert(members_view(members@) =~= old_members.insert(
                    ins_pos as int,
                    seq![e],
                ));
                let nn = views(names@);
                assert forall|a: int, b: int| 0 <= a < b < nn.len() implies seq_lt(
                    #[trigger] nn[a],
                    #[trigger] nn[b],
                ) by {
                    if a < ins_pos && b < ins_pos {
                        assert(nn[a] == old_names[a] && nn[b] == old_names[b]);
                    } else if a < ins_pos && b == ins_pos {
                        assert(nn[a] == old_names[a]);
                    } else if a < ins_pos && b > ins_pos {
                        assert(nn[a] == old_names[a] && nn[b] == old_names[b - 1]);
                        if b - 1 > a {
                        }
                        assert(seq_lt(old_names[a], old_names[b - 1]));
                    } else if a == ins_pos {
                        assert(nn[b] == old_names[b - 1]);
                        if b - 1 > ins_pos {
                            assert(seq_lt(old_names[ins_pos as int], old_names[b - 1]));
                            lemma_seq_lt_transitive(e.0, old_names[ins_pos as int], old_names[b - 1]);
                        }
                    } else {
                        assert(nn[a] == old_names[a - 1] && nn[b] == old_names[b - 1]);
                    }
                }
                assert forall|g: int| 0 <= g < nn.len() implies #[trigger] members_view(
                    members@,
                )[g] == of_file(new_es, nn[g]) by {
                    if g < ins_pos {
                        lemma_of_file_push(old_es, e, old_names[g]);
                        assert(members_view(members@)[g] == old_members[g]);
                    } else if g == ins_pos {
                        lemma_of_file_push(old_es, e, e.0);
                        assert(!entry_files(old_es).contains(e.0)) by {
                            if entry_files(old_es).contains(e.0) {
                                assert(old_names.to_set().contains(e.0));
                            }
                        }
                        assert(of_file(old_es, e.0) =~= Seq::<EntryView>::empty()) by {
                            reveal(Seq::filter);
                            lemma_of_file_empty(old_es, e.0);
                        }
                        assert(members_view(members@)[g] =~= seq![e]);
                    } else {
                        lemma_of_file_push(old_es, e, old_names[g - 1]);
                        assert(members_view(members@)[g] == old_members[g - 1]);
                    }
                }
                assert(nn.to_set() =~= entry_files(new_es).to_set()) by {
                    assert forall|x: Seq<char>| nn.to_set().contains(x) implies entry_files(
                        new_es,
                    ).to_set().contains(x) by {
                        let k = choose|k: int| 0 <= k < nn.len() && nn[k] == x;
                        if k < ins_pos {
                            assert(old_names[k] == x);
                            assert(old_names.to_set().contains(x));
                        } else if k > ins_pos {
                            assert(old_names[k - 1] == x);
                            assert(old_names.to_set().contains(x));
                        }
                        assert(entry_files(new_es).contains(x)) by {
                            if k != ins_pos {
                                let m = choose|m: int|
                                    0 <= m < entry_files(old_es).len() && entry_files(old_es)[m]
                                        == x;
                                assert(entry_files(new_es)[m] == x);
                            } else {
                                assert(entry_files(new_es)[j as int] == x);
                            }
                        }
                    }
                    assert forall|x: Seq<char>| entry_files(new_es).to_set().contains(x) implies nn.to_set().contains(
                        x,
                    ) by {
                        let m = choose|m: int|
                            0 <= m < entry_files(new_es).len() && entry_files(new_es)[m] == x;
                        if m < j {
                            assert(entry_files(old_es)[m] == x);
                            assert(entry_files(old_es).to_set().contains(x));
                            let k = choose|k: int| 0 <= k < old_names.len() && old_names[k] == x;
                            if k < ins_pos {
                                assert(nn[k] == x);
                            } else {
                                assert(nn[k + 1] == x);
                            }
                        } else {
                            assert(nn[ins_pos as int] == x);
                        }
                    }
                }
            }
        }
        j = j + 1;
    }
    proof {
        assert(entries_view(es@).take(es@.len() as int) =~= entries_view(es@));
    }
    (names, members)
}

proof fn lemma_of_file_empty(es: Seq<EntryView>, f: Seq<char>)
    requires
        !entry_files(es).contains(f),
    ensures
        of_file(es, f) == Seq::<EntryView>::empty(),
    decreases es.len(),
{
    reveal(Seq::filter);
    if es.len() > 0 {
        assert(!entry_files(es.drop_last()).contains(f)) by {
            if entry_files(es.drop_last()).contains(f) {
                let m = choose|m: int|
                    0 <= m < entry_files(es.drop_last()).len() && entry_files(es.drop_last())[m]
                        == f;
                assert(entry_files(es)[m] == f);
            }
        }
        lemma_of_file_empty(es.drop_last(), f);
        assert(entry_files(es)[es.len() - 1] == es.last().0);
    }
}

proof fn lemma_of_file_names(es: Seq<EntryView>, f: Seq<char>, i: int)
    requires
        0 <= i < of_file(es, f).len(),
    ensures
        of_file(es, f)[i].0 == f,
    decreases es.len(),
{
    reveal(Seq::filter);
    if es.len() > 0 {
        let r = of_file(es.drop_last(), f);
        if i < r.len() {
            lemma_of_file_names(es.drop_last(), f, i);
        }
    }
}

proof fn lemma_sorted_files_are(es: Seq<EntryView>, names: Seq<Seq<char>>)
    requires
        strictly_sorted(names),
        names.to_set() == entry_files(es).to_set(),
    ensures
        sorted_files(es) == names,
{
    let fs = sorted_files(es);
    assert(strictly_sorted(fs) && fs.to_set() == entry_files(es).to_set());
    lemma_sorted_unique(fs, names);
}

/// Appends one shown row to `out`.
fn push_row(out: &mut Vec<char>, file_display: &[char], e: &(String, usize, String))
    ensures
        final(out)@ == old(out)@ + file_display@ + seq![':'] + decimal(e.1 as nat) + seq![':']
            + e.2@ + seq!['\n'],
{
    append_chars(out, file_display);
    out.push(':');
    push_decimal(out, e.1);
    out.push(':');
    let c = chars_of(e.2.as_str());
    append_chars(out, c.as_slice());
    out.push('\n');
    proof {
        assert(final(out)@ =~= old(out)@ + file_display@ + seq![':'] + decimal(e.1 as nat) + seq![
            ':',
        ] + e.2@ + seq!['\n']);
    }
}

/// Groups rg's `file:line:content` output by file for display: a header with
/// the number of result lines and files; the files in increasing order, each
/// with at most `per_file` of its matches (cleaned, file names compacted), at
/// most `max_results` rows in all; and `[+N more]` for the rows not shown.
/// `path` names the file of lines that carry no file name.
#[verifier::rlimit(40)]
pub fn group_grep_output(
    stdout: &str,
    path: &str,
    pattern: &str,
    max_results: usize,
    per_file: usize,
) -> (r: String)
    ensures
        r@ == grouped_output(stdout@, path@, pattern@, max_results as nat, per_file as nat),
{
    let sc = chars_of(stdout);
    let ls = lines_of(sc.as_slice());
    let total = ls.len();
    let es = parse_entries(&ls, path, pattern);
    let (names, members) = group_entries(&es);
    let ghost ev = entries_view(es@);
    let ghost files = views(names@);
    let ghost rows = rows_for(ev, files, per_file as nat);
    proof {
        lemma_sorted_files_are(ev, files);
    }
    let mut out: Vec<char> = Vec::new();
    push_decimal(&mut out, total);
    append_str(&mut out, " matches in ");
    push_decimal(&mut out, names.len());
    append_str(&mut out, " files:\n\n");
    let ghost header = out@;
    let mut shown: usize = 0;
    let mut g: usize = 0;
    while g < names.len() && shown < max_results
        invariant
            ev == entries_view(es@),
            files == views(names@),
            rows == rows_for(ev, files, per_file as nat),
            group_invariant(ev, files, members_view(members@)),
            0 <= g <= names@.len(),
            shown <= max_results,
            shown < max_results ==> shown == rows_for(ev, files.take(g as int), per_file as nat).len(),
            shown <= rows.len(),
            out@ == header + render_rows(rows.take(shown as int)),
        decreases names@.len() - g,
    {
        let name_s = string_from_chars(names[g].as_slice());
        let disp_s = compact_path(name_s.as_str());
        let disp = chars_of(disp_s.as_str());
        let group = &members[g];
        let ghost fg = first_n(of_file(ev, files[g as int]), per_file as nat);
        let ghost before = rows_for(ev, files.take(g as int), per_file as nat);
        proof {
            assert(files.take(g + 1).drop_last() =~= files.take(g as int));
            assert(rows_for(ev, files.take(g + 1), per_file as nat) == before + fg);
            lemma_rows_for_prefix(ev, files, per_file as nat, g + 1);
            assert(members_view(members@)[g as int] == entries_view(group@));
            assert(entries_view(group@) == of_file(ev, files[g as int]));
        }
        let mut m: usize = 0;
        while m < group.len() && m < per_file && shown < max_results
            invariant
                ev == entries_view(es@),
                rows == rows_for(ev, files, per_file as nat),
                entries_view(group@) == of_file(ev, files[g as int]),
                fg == first_n(of_file(ev, files[g as int]), per_file as nat),
                disp@ == compact_path_spec(files[g as int]),
                rows_for(ev, files.take(g + 1), per_file as nat) == before + fg,
                (before + fg).len() <= rows.len(),
                rows.take((before + fg).len() as int) == before + fg,
                0 <= m <= group@.len(),
                m <= per_file,
                shown <= max_results,
                shown == before.len() + m,
                out@ == header + render_rows(rows.take(shown as int)),
            decreases group@.len() - m,
        {
            let e = &group[m];
            proof {
                assert(fg[m as int] == entries_view(group@)[m as int]);
                assert(rows[shown as int] == (before + fg)[shown as int]);
                assert((before + fg)[shown as int] == fg[m as int]);
                assert(entry_view(*e) == rows[shown as int]);
                lemma_of_file_names(ev, files[g as int], m as int);
                assert(rows.take(shown + 1).drop_last() =~= rows.take(shown as int));
            }
            push_row(&mut out, disp.as_slice(), e);
            m = m + 1;
            shown = shown + 1;
        }
        proof {
            if !(shown < max_results) {
            } else {
                assert(m == fg.len());
                assert(shown == (before + fg).len());
            }
        }
        g = g + 1;
    }
    proof {
        if g == names.len() {
            assert(files.take(g as int) =~= files);
        }
    }
    if total > shown {
        append_str(&mut out, "[+");
        push_decimal(&mut out, total - shown);
        append_str(&mut out, " more]\n");
    }
    string_from_chars(out.as_slice())
}

// ---------------------------------------------------------------------------
// Building the rg and grep command lines
// ---------------------------------------------------------------------------

/// Whether grep is asked to take the pattern as fixed strings (`-F`).
pub open spec fn fixed_strings(args: Seq<Seq<char>>) -> bool {
    exists|k: int|
        0 <= k < args.len() && (#[trigger] args[k] == "--fixed-strings"@ || asks_letter(
            args[k],
            'F',
        ))
}

/// Whether grep is asked for an extended (`-E`) or Perl (`-P`) regex.
pub open spec fn non_basic_regex(args: Seq<Seq<char>>) -> bool {
    exists|k: int|
        0 <= k < args.len() && (#[trigger] args[k] == "--extended-regexp"@ || args[k]
            == "--perl-regexp"@ || asks_letter(args[k], 'E') || asks_letter(args[k], 'P'))
}

/// Every `\|` replaced by `|`, each occurrence taken leftmost first and
/// without overlap (as `str::replace` finds them): grep's alternation in rg's
/// syntax.
pub open spec fn replace_bar(s: Seq<char>) -> Seq<char>
    decreases s.len(),
{
    if s.len() == 0 {
        s
    } else if s.len() >= 2 && s[0] == '\\' && s[1] == '|' {
        seq!['|'] + replace_bar(s.skip(2))
    } else {
        seq![s[0]] + replace_bar(s.drop_first())
    }
}

/// Groups of a basic regex in rg's syntax. Escape pairs are read left to
/// right: `\(` and `\)` become groups, a bare `(` or `)`, literal in grep, is
/// escaped, and any other escape pair passes unchanged.
pub open spec fn bre_groups(s: Seq<char>) -> Seq<char>
    decreases s.len(),
{
    if s.len() == 0 {
        s
    } else if s.len() >= 2 && s[0] == '\\' {
        let c = s[1];
        if c == '(' || c == ')' {
            seq![c] + bre_groups(s.skip(2))
        } else {
            seq![s[0], c] + bre_groups(s.skip(2))
        }
    } else if s[0] == '(' || s[0] == ')' {
        seq!['\\', s[0]] + bre_groups(s.drop_first())
    } else {
        seq![s[0]] + bre_groups(s.drop_first())
    }
}

/// A grep pattern in rg's syntax: every `\|` becomes `|` (see `replace_bar`),
/// and in a basic regex (grep's default) the groups and literal parentheses
/// are then rewritten (see `bre_groups`).
pub open spec fn translate_pattern(s: Seq<char>, basic: bool) -> Seq<char> {
    if basic {
        bre_groups(replace_bar(s))
    } else {
        replace_bar(s)
    }
}

fn replace_bar_chars(sc: &[char]) -> (out: Vec<char>)
    ensures
        out@ == replace_bar(sc@),
{
    let mut out: Vec<char> = Vec::new();
    let mut i: usize = 0;
    proof {
        assert(sc@.skip(0) =~= sc@);
    }
    while i < sc.len()
        invariant
            0 <= i <= sc@.len(),
            replace_bar(sc@) == out@ + replace_bar(sc@.skip(i as int)),
        decreases sc@.len() - i,
    {
        let ghost rest = sc@.skip(i as int);
        let ghost before = out@;
        if i + 1 < sc.len() && sc[i] == '\\' && sc[i + 1] == '|' {
            out.push('|');
            proof {
                assert(out@ =~= before + seq!['|']);
                assert(rest.skip(2) =~= sc@.skip(i + 2));
            }
            i = i + 2;
        } else {
            out.push(sc[i]);
            proof {
                assert(out@ =~= before + seq![sc@[i as int]]);
                assert(rest.drop_first() =~= sc@.skip(i + 1));
            }
            i = i + 1;
        }
    }
    proof {
        assert(out@ + replace_bar(sc@.skip(i as int)) =~= out@);
    }
    out
}

fn bre_groups_chars(sc: &[char]) -> (out: Vec<char>)
    ensures
        out@ == bre_groups(sc@),
{
    let mut out: Vec<char> = Vec::new();
    let mut i: usize = 0;
    proof {
        assert(sc@.skip(0) =~= sc@);
    }
    while i < sc.len()
        invariant
            0 <= i <= sc@.len(),
            bre_groups(sc@) == out@ + bre_groups(sc@.skip(i as int)),
        decreases sc@.len() - i,
    {
        let ghost rest = sc@.skip(i as int);
        let ghost before = out@;
        let c0 = sc[i];
        if i + 1 < sc.len() && c0 == '\\' {
            let c = sc[i + 1];
            if c == '(' || c == ')' {
                out.push(c);
                proof {
                    assert(out@ =~= before + seq![c]);
                }
            } else {
                out.push(c0);
                out.push(c);
                proof {
                    assert(out@ =~= before + seq![c0, c]);
                }
            }
            proof {
                assert(rest.skip(2) =~= sc@.skip(i + 2));
            }
            i = i + 2;
        } else {
            if c0 == '(' || c0 == ')' {
                out.push('\\');
                out.push(c0);
                proof {
                    assert(out@ =~= before + seq!['\\', c0]);
                }
            } else {
                out.push(c0);
                proof {
                    assert(out@ =~= before + seq![c0]);
                }
            }
            proof {
                assert(rest.drop_first() =~= sc@.skip(i + 1));
            }
            i = i + 1;
        }
    }
    proof {
        assert(out@ + bre_groups(sc@.skip(i as int)) =~= out@);
    }
    out
}

/// Rewrites a grep pattern into rg's syntax (see `translate_pattern`);
/// `basic` tells whether grep reads it as a basic regex.
pub fn translate_grep_pattern(s: &str, basic: bool) -> (r: String)
    ensures
        r@ == translate_pattern(s@, basic),
{
    let sc = chars_of(s);
    let bars = replace_bar_chars(sc.as_slice());
    if basic {
        let groups = bre_groups_chars(bars.as_slice());
        string_from_chars(groups.as_slice())
    } else {
        string_from_chars(bars.as_slice())
    }
}

/// Whether some argument satisfies the letter or long-flag test.
fn any_arg_asks(args: &[String], letter: char, long: &str) -> (b: bool)
    ensures
        b == exists|k: int|
            0 <= k < args@.len() && (#[trigger] args@[k]@ == long@ || asks_letter(
                args@[k]@,
                letter,
            )),
{
    let mut i: usize = 0;
    while i < args.len()
        invariant
            0 <= i <= args@.len(),
            forall|k: int|
                0 <= k < i ==> !(#[trigger] args@[k]@ == long@ || asks_letter(args@[k]@, letter)),
        decreases args@.len() - i,
    {
        let t = chars_of(args[i].as_str());
        if eq_str(t.as_slice(), long) || token_asks_letter(t.as_slice(), letter) {
            return true;
        }
        i = i + 1;
    }
    false
}

/// How grep reads the pattern of `args`: `(fixed strings, basic regex)`.
pub fn pattern_dialect(args: &[String]) -> (r: (bool, bool))
    ensures
        r.0 == fixed_strings(arg_views(args@)),
        r.1 == (!fixed_strings(arg_views(args@)) && !non_basic_regex(arg_views(args@))),
{
    let ghost av = arg_views(args@);
    let fixed = any_arg_asks(args, 'F', "--fixed-strings");
    let ext = any_arg_asks(args, 'E', "--extended-regexp");
    let perl = any_arg_asks(args, 'P', "--perl-regexp");
    proof {
        assert(forall|k: int| 0 <= k < args@.len() ==> av[k] == #[trigger] args@[k]@);
        if fixed {
            let k = choose|k: int|
                0 <= k < args@.len() && (#[trigger] args@[k]@ == "--fixed-strings"@ || asks_letter(
                    args@[k]@,
                    'F',
                ));
            assert(av[k] == args@[k]@);
        } else {
            assert forall|k: int| 0 <= k < av.len() implies !(#[trigger] av[k]
                == "--fixed-strings"@ || asks_letter(av[k], 'F')) by {
                assert(av[k] == args@[k]@);
            }
        }
        if ext || perl {
            if ext {
                let k = choose|k: int|
                    0 <= k < args@.len() && (#[trigger] args@[k]@ == "--extended-regexp"@
                        || asks_letter(args@[k]@, 'E'));
                assert(av[k] == args@[k]@);
            } else {
                let k = choose|k: int|
                    0 <= k < args@.len() && (#[trigger] args@[k]@ == "--perl-regexp"@
                        || asks_letter(args@[k]@, 'P'));
                assert(av[k] == args@[k]@);
            }
        } else {
            assert forall|k: int| 0 <= k < av.len() implies !(#[trigger] av[k]
                == "--extended-regexp"@ || av[k] == "--perl-regexp"@ || asks_letter(av[k], 'E')
                || asks_letter(av[k], 'P')) by {
                assert(av[k] == args@[k]@);
            }
        }
    }
    (fixed, !fixed && !ext && !perl)
}

/// The pattern token as forwarded to rg: verbatim for fixed strings, else
/// translated (see `translate_pattern`).
pub open spec fn forwarded_pattern(a: Seq<char>, fixed: bool, basic: bool) -> Seq<char> {
    if fixed {
        a
    } else {
        translate_pattern(a, basic)
    }
}

/// The user's arguments as forwarded to rg, from index `i` on: the pattern
/// token is put in rg's syntax, flags lose their grep-only letters (and
/// vanish when nothing is left), other tokens pass unchanged.
pub open spec fn forwarded_from(
    args: Seq<Seq<char>>,
    pattern_idx: Option<int>,
    fixed: bool,
    basic: bool,
    i: int,
) -> Seq<Seq<char>>
    decreases args.len() - i,
{
    if i < 0 || i >= args.len() {
        Seq::<Seq<char>>::empty()
    } else {
        let a = args[i];
        let rest = forwarded_from(args, pattern_idx, fixed, basic, i + 1);
        if pattern_idx == Some(i) {
            seq![forwarded_pattern(a, fixed, basic)] + rest
        } else if is_flag_token(a) {
            match strip_spec(a) {
                Some(o) => seq![o] + rest,
                None => rest,
            }
        } else {
            seq![a] + rest
        }
    }
}

/// Forwards the user's grep/rg arguments to rg, fixing the grep-isms that
/// would corrupt its output (see `strip_grep_only_flags`) and putting the
/// pattern token at `pattern_idx` in rg's syntax (see `translate_pattern`).
pub fn rg_user_args(args: &[String], pattern_idx: Option<usize>) -> (out: Vec<String>)
    ensures
        arg_views(out@) == forwarded_from(
            arg_views(args@),
            match pattern_idx {
                Some(p) => Some(p as int),
                None => None,
            },
            fixed_strings(arg_views(args@)),
            !fixed_strings(arg_views(args@)) && !non_basic_regex(arg_views(args@)),
            0,
        ),
{
    let ghost av = arg_views(args@);
    let ghost pidx: Option<int> = match pattern_idx {
        Some(p) => Some(p as int),
        None => None,
    };
    let (fixed, basic) = pattern_dialect(args);
    let mut out: Vec<String> = Vec::new();
    let mut i: usize = 0;
    while i < args.len()
        invariant
            av == arg_views(args@),
            pidx == match pattern_idx {
                Some(p) => Some(p as int),
                None => None,
            },
            0 <= i <= args@.len(),
            forwarded_from(av, pidx, fixed, basic, 0) == arg_views(out@) + forwarded_from(
                av,
                pidx,
                fixed,
                basic,
                i as int,
            ),
        decreases args@.len() - i,
    {
        let ghost before = arg_views(out@);
        let ghost rest = forwarded_from(av, pidx, fixed, basic, i + 1);
        let a = args[i].as_str();
        assert(av[i as int] == a@);
        let is_pattern = match pattern_idx {
            Some(p) => p == i,
            None => false,
        };
        if is_pattern {
            let r = if fixed {
                args[i].clone()
            } else {
                translate_grep_pattern(a, basic)
            };
            out.push(r);
            proof {
                assert(arg_views(out@) =~= before.push(forwarded_pattern(a@, fixed, basic)));
                assert(before.push(forwarded_pattern(a@, fixed, basic)) + rest =~= before + (seq![
                    forwarded_pattern(a@, fixed, basic),
                ] + rest));
            }
        } else {
            let t = chars_of(a);
            if t.len() > 1 && t[0] == '-' {
                match strip_grep_only_flags(a) {
                    Some(o) => {
                        out.push(o);
                        proof {
                            assert(arg_views(out@) =~= before.push(out@.last()@));
                            assert(before.push(out@.last()@) + rest =~= before + (seq![
                                out@.last()@,
                            ] + rest));
                        }
                    },
                    None => {},
                }
            } else {
                out.push(args[i].clone());
                proof {
                    assert(arg_views(out@) =~= before.push(a@));
                    assert(before.push(a@) + rest =~= before + (seq![a@] + rest));
                }
            }
        }
        i = i + 1;
    }
    proof {
        assert(arg_views(out@) + forwarded_from(av, pidx, fixed, basic, i as int) =~= arg_views(
            out@,
        ));
    }
    out
}

/// The full rg argument list: in format mode (an output-format flag given)
/// only `--no-heading --no-ignore-vcs`, plus `--no-filename` when grep's `-h`
/// was asked for; otherwise `-n -H --no-heading --no-ignore-vcs`, which make
/// the output `file:line:content`; then the forwarded user arguments.
pub open spec fn rg_arg_list(args: Seq<Seq<char>>, user: Seq<Seq<char>>) -> Seq<Seq<char>> {
    if exists|k: int| 0 <= k < args.len() && requests_format(#[trigger] args[k]) {
        let base = seq!["--no-heading"@, "--no-ignore-vcs"@];
        if exists|k: int| 0 <= k < args.len() && asks_no_filename(#[trigger] args[k]) {
            base.push("--no-filename"@) + user
        } else {
            base + user
        }
    } else {
        seq!["-n"@, "-H"@, "--no-heading"@, "--no-ignore-vcs"@] + user
    }
}

/// Appends copies of `src` to `out`.
fn extend_strings(out: &mut Vec<String>, src: &[String])
    ensures
        arg_views(final(out)@) == arg_views(old(out)@) + arg_views(src@),
{
    let mut i: usize = 0;
    while i < src.len()
        invariant
            0 <= i <= src@.len(),
            arg_views(out@) == arg_views(old(out)@) + arg_views(src@).take(i as int),
        decreases src@.len() - i,
    {
        let ghost before = arg_views(out@);
        out.push(src[i].clone());
        proof {
            assert(arg_views(out@) =~= before.push(src@[i as int]@));
            assert(arg_views(src@).take(i + 1) =~= arg_views(src@).take(i as int).push(
                src@[i as int]@,
            ));
            assert(arg_views(out@) =~= arg_views(old(out)@) + arg_views(src@).take(i + 1));
        }
        i = i + 1;
    }
    proof {
        assert(arg_views(src@).take(src@.len() as int) =~= arg_views(src@));
    }
}

/// Appends a copy of the string `s` to `out`.
fn push_str_arg(out: &mut Vec<String>, s: &str)
    ensures
        arg_views(final(out)@) == arg_views(old(out)@).push(s@),
{
    out.push(string_of_str(s));
    proof {
        assert(arg_views(final(out)@) =~= arg_views(old(out)@).push(s@));
    }
}

/// The arguments given to rg for the user's `args`, whose forwarded form is
/// `user_args` (see `rg_user_args`).
pub fn rg_args(args: &[String], user_args: &[String]) -> (out: Vec<String>)
    ensures
        arg_views(out@) == rg_arg_list(arg_views(args@), arg_views(user_args@)),
{
    let format_mode = has_format_flag(args);
    let mut out: Vec<String> = Vec::new();
    proof {
        assert(arg_views(out@) =~= Seq::<Seq<char>>::empty());
    }
    if format_mode {
        push_str_arg(&mut out, "--no-heading");
        push_str_arg(&mut out, "--no-ignore-vcs");
        if wants_no_filename(args) {
            push_str_arg(&mut out, "--no-filename");
        }
    } else {
        push_str_arg(&mut out, "-n");
        push_str_arg(&mut out, "-H");
        push_str_arg(&mut out, "--no-heading");
        push_str_arg(&mut out, "--no-ignore-vcs");
    }
    let ghost base = arg_views(out@);
    extend_strings(&mut out, user_args);
    proof {
        let av = arg_views(args@);
        assert(forall|k: int| 0 <= k < av.len() ==> av[k] == args@[k]@);
        if format_mode {
            assert(exists|k: int| 0 <= k < av.len() && requests_format(#[trigger] av[k])) by {
                let k = choose|k: int| 0 <= k < args@.len() && requests_format(#[trigger] args@[k]@);
                assert(av[k] == args@[k]@);
            }
        } else {
            assert(!exists|k: int| 0 <= k < av.len() && requests_format(#[trigger] av[k])) by {
                if exists|k: int| 0 <= k < av.len() && requests_format(#[trigger] av[k]) {
                    let k = choose|k: int| 0 <= k < av.len() && requests_format(#[trigger] av[k]);
                    assert(requests_format(args@[k]@));
                }
            }
        }
        assert((exists|k: int| 0 <= k < av.len() && asks_no_filename(#[trigger] av[k])) == (exists|
            k: int,
        | 0 <= k < args@.len() && asks_no_filename(#[trigger] args@[k]@))) by {
            if exists|k: int| 0 <= k < av.len() && asks_no_filename(#[trigger] av[k]) {
                let k = choose|k: int| 0 <= k < av.len() && asks_no_filename(#[trigger] av[k]);
                assert(asks_no_filename(args@[k]@));
            }
            if exists|k: int| 0 <= k < args@.len() && asks_no_filename(#[trigger] args@[k]@) {
                let k = choose|k: int| 0 <= k < args@.len() && asks_no_filename(#[trigger] args@[k]@);
                assert(asks_no_filename(av[k]));
            }
        }
    }
    out
}

/// The arguments of the grep fallback, used when rg cannot be run:
/// `-rn -H` and the forwarded user arguments without rg-only flags.
pub fn grep_fallback_args(user_args: &[String]) -> (out: Vec<String>)
    ensures
        arg_views(out@) == seq!["-rn"@, "-H"@] + grep_safe_from(arg_views(user_args@), 0, false),
{
    let mut out: Vec<String> = Vec::new();
    proof {
        assert(arg_views(out@) =~= Seq::<Seq<char>>::empty());
    }
    push_str_arg(&mut out, "-rn");
    push_str_arg(&mut out, "-H");
    let safe = grep_safe_args(user_args);
    extend_strings(&mut out, safe.as_slice());
    proof {
        assert(arg_views(out@) =~= seq!["-rn"@, "-H"@] + grep_safe_from(arg_views(user_args@), 0, false));
    }
    out
}

/// The pattern as shown in messages: the located pattern, or `?`.
pub fn pattern_display(pattern: &Option<String>) -> (r: String)
    ensures
        r@ == match pattern {
            Some(p) => p@,
            None => "?"@,
        },
{
    match pattern {
        Some(p) => p.clone(),
        None => string_of_str("?"),
    }
}

/// The message printed when rg finds nothing: `0 matches for '<pattern>'`.
pub fn no_match_message(pattern_display: &str) -> (r: String)
    ensures
        r@ == "0 matches for '"@ + pattern_display@ + "'"@,
{
    let mut out: Vec<char> = Vec::new();
    append_str(&mut out, "0 matches for '");
    append_str(&mut out, pattern_display);
    append_str(&mut out, "'");
    proof {
        assert(out@ =~= "0 matches for '"@ + pattern_display@ + "'"@);
    }
    string_from_chars(out.as_slice())
}

// ---------------------------------------------------------------------------
// Laws of result-line parsing
// ---------------------------------------------------------------------------

/// A `file:line:content` line, as rg prints it with `-H`, parses back into
/// its file, line number and content, however many colons the content holds.
pub proof fn lemma_parse_file_line_content(
    file: Seq<char>,
    n: nat,
    content: Seq<char>,
    default_path: Seq<char>,
)
    requires
        !file.contains(':'),
        n <= usize::MAX,
    ensures
        parse_line_spec(file + seq![':'] + decimal(n) + seq![':'] + content, default_path) == Some(
            (file, n, content),
        ),
{
    let d = decimal(n);
    lemma_parse_decimal(n);
    let line = file + seq![':'] + d + seq![':'] + content;
    let k = file.len() as int;
    assert forall|j: int| 0 <= j < k implies line[j] != ':' by {
        assert(line[j] == file[j]);
        if file[j] == ':' {
            assert(file.contains(':'));
        }
    }
    lemma_index_of_found(line, ':', k);
    assert(line.take(k) =~= file);
    let after = line.skip(k + 1);
    assert(after =~= d + seq![':'] + content);
    assert forall|j: int| 0 <= j < d.len() implies after[j] != ':' by {
        assert(after[j] == d[j]);
        if d[j] == ':' {
            assert(d.contains(':'));
        }
    }
    lemma_index_of_found(after, ':', d.len() as int);
    assert(after.take(d.len() as int) =~= d);
    assert(after.skip(d.len() as int + 1) =~= content);
}

/// A `line:content` line, as grep prints it for a single file, parses into
/// the default path, the line number and the whole content, unless the
/// content itself opens with a number and a colon.
pub proof fn lemma_parse_line_content(n: nat, content: Seq<char>, default_path: Seq<char>)
    requires
        n <= usize::MAX,
        !(index_of(content, ':') >= 0 && parse_usize(content.take(index_of(content, ':'))) is Some),
    ensures
        parse_line_spec(decimal(n) + seq![':'] + content, default_path) == Some(
            (default_path, n, content),
        ),
{
    let d = decimal(n);
    lemma_parse_decimal(n);
    let line = d + seq![':'] + content;
    let k = d.len() as int;
    assert forall|j: int| 0 <= j < k implies line[j] != ':' by {
        assert(line[j] == d[j]);
        if d[j] == ':' {
            assert(d.contains(':'));
        }
    }
    lemma_index_of_found(line, ':', k);
    assert(line.take(k) =~= d);
    assert(line.skip(k + 1) =~= content);
}

// ---------------------------------------------------------------------------
// Laws of flag stripping
// ---------------------------------------------------------------------------

proof fn lemma_without_grep_only(l: Seq<char>)
    ensures
        forall|i: int|
            0 <= i < without_grep_only(l).len() ==> !is_grep_only_char(
                #[trigger] without_grep_only(l)[i],
            ) && l.contains(without_grep_only(l)[i]),
        forall|c: char|
            #![trigger without_grep_only(l).contains(c)]
            #![trigger l.contains(c)]
            !is_grep_only_char(c) ==> (without_grep_only(l).contains(c) <==> l.contains(c)),
    decreases l.len(),
{
    if l.len() > 0 {
        let p = l.drop_last();
        lemma_without_grep_only(p);
        let w = without_grep_only(l);
        let wp = without_grep_only(p);
        assert forall|i: int| 0 <= i < w.len() implies !is_grep_only_char(#[trigger] w[i])
            && l.contains(w[i]) by {
            if i < wp.len() {
                assert(w[i] == wp[i]);
                assert(p.contains(wp[i]));
                let k = choose|k: int| 0 <= k < p.len() && p[k] == wp[i];
                assert(l[k] == wp[i]);
            } else {
                assert(w[i] == l.last());
                assert(l[l.len() - 1] == l.last());
            }
        }
        assert forall|c: char| !is_grep_only_char(c) implies (w.contains(c) <==> l.contains(c)) by {
            if l.contains(c) {
                let k = choose|k: int| 0 <= k < l.len() && l[k] == c;
                if k < p.len() {
                    assert(p[k] == c);
                    assert(wp.contains(c));
                    let m = choose|m: int| 0 <= m < wp.len() && wp[m] == c;
                    assert(w[m] == c);
                } else {
                    assert(w[w.len() - 1] == c);
                }
            }
            if w.contains(c) {
                let m = choose|m: int| 0 <= m < w.len() && w[m] == c;
                assert(l.contains(w[m]));
            }
        }
    }
}

proof fn lemma_strip_short_shape(tok: Seq<char>)
    requires
        is_dashed(tok),
        !is_long(tok),
        !short_letters(tok.skip(1)).contains('-'),
    ensures
        ({
            let rest = tok.skip(1);
            let w = without_grep_only(short_letters(rest));
            let out = seq!['-'] + w + rest.skip(value_char_pos(rest));
            &&& out.len() > 1 ==> is_dashed(out) && !is_long(out) && short_letters(out.skip(1)) == w
            &&& out.len() == 1 ==> w.len() == 0 && value_char_pos(rest) == rest.len()
        }),
{
    let rest = tok.skip(1);
    lemma_value_char_pos(rest);
    let k = value_char_pos(rest);
    let l = short_letters(rest);
    let w = without_grep_only(l);
    lemma_without_grep_only(l);
    let tail = rest.skip(k);
    let out = seq!['-'] + w + tail;
    let o1 = out.skip(1);
    assert(o1 =~= w + tail);
    assert forall|j: int| 0 <= j < w.len() implies !is_short_value_char(#[trigger] o1[j]) by {
        assert(o1[j] == w[j]);
        assert(l.contains(w[j]));
        let m = choose|m: int| 0 <= m < l.len() && l[m] == w[j];
        assert(l[m] == rest[m]);
    }
    if w.len() < o1.len() {
        assert(o1[w.len() as int] == tail[0]);
        assert(tail[0] == rest[k]);
    }
    lemma_value_char_pos_at(o1, w.len() as int);
    assert(short_letters(o1) =~= w);
    if out.len() > 1 {
        if w.len() > 0 {
            assert(out[1] == w[0]);
            assert(l.contains(w[0]));
            if w[0] == '-' {
                assert(l.contains('-'));
            }
        } else {
            assert(out[1] == tail[0]);
            assert(is_short_value_char(rest[k]));
        }
    }
}

/// Stripping keeps every request of an output format: a token asks for a
/// format that cannot be regrouped exactly when what is left of it does
/// (for bundles whose flag letters hold no `-`).
pub proof fn lemma_strip_keeps_format(tok: Seq<char>)
    requires
        is_dashed(tok) && !is_long(tok) ==> !short_letters(tok.skip(1)).contains('-'),
    ensures
        requests_format(tok) == match strip_spec(tok) {
            Some(o) => requests_format(o),
            None => false,
        },
{
    if is_long(tok) {
        reveal_strlit("recursive");
        reveal_strlit("dereference-recursive");
        reveal_strlit("extended-regexp");
        reveal_strlit("count");
        reveal_strlit("files-with-matches");
        reveal_strlit("files-without-match");
        reveal_strlit("only-matching");
        reveal_strlit("null");
        reveal_strlit("files");
        let long = tok.skip(2);
        assert("recursive"@.len() == 9);
        assert("dereference-recursive"@.len() == 21);
        assert("extended-regexp"@.len() == 15);
        assert("count"@.len() == 5);
        assert("files-with-matches"@.len() == 18);
        assert("files-without-match"@.len() == 19);
        assert("only-matching"@.len() == 13);
        assert("null"@.len() == 4);
        assert("files"@.len() == 5);
        if long == "recursive"@ || long == "dereference-recursive"@ || long == "extended-regexp"@ {
            assert(long != "count"@);
            assert(long != "files-with-matches"@);
            assert(long != "files-without-match"@);
            assert(long != "only-matching"@);
            assert(long != "null"@);
            assert(long != "files"@);
        }
    } else if is_dashed(tok) {
        let rest = tok.skip(1);
        let l = short_letters(rest);
        let w = without_grep_only(l);
        lemma_strip_short_shape(tok);
        lemma_without_grep_only(l);
        let has_w = exists|i: int| 0 <= i < w.len() && is_format_char(#[trigger] w[i]);
        let has_l = exists|i: int| 0 <= i < l.len() && is_format_char(#[trigger] l[i]);
        assert(has_w == has_l) by {
            if has_l {
                let i = choose|i: int| 0 <= i < l.len() && is_format_char(#[trigger] l[i]);
                assert(l.contains(l[i]));
                assert(w.contains(l[i]));
                let m = choose|m: int| 0 <= m < w.len() && w[m] == l[i];
                assert(is_format_char(w[m]));
            }
            if has_w {
                let i = choose|i: int| 0 <= i < w.len() && is_format_char(#[trigger] w[i]);
                assert(l.contains(w[i]));
                let m = choose|m: int| 0 <= m < l.len() && l[m] == w[i];
                assert(is_format_char(l[m]));
            }
        }
    }
}

/// After stripping, no grep-only letter (`r`, `R`, `E`, `h`) is left among
/// the flag letters of a short bundle (one whose flag letters hold no `-`).
pub proof fn lemma_strip_removes_grep_only(tok: Seq<char>)
    requires
        is_dashed(tok),
        !is_long(tok),
        !short_letters(tok.skip(1)).contains('-'),
    ensures
        strip_spec(tok) matches Some(o) ==> is_dashed(o) && !is_long(o) && forall|i: int|
            0 <= i < short_letters(o.skip(1)).len() ==> !is_grep_only_char(
                #[trigger] short_letters(o.skip(1))[i],
            ),
{
    lemma_strip_short_shape(tok);
    lemma_without_grep_only(short_letters(tok.skip(1)));
}

/// The grep fallback never receives an rg-only flag.
pub proof fn lemma_grep_safe_has_no_rg_only(args: Seq<Seq<char>>, i: int, skip_next: bool)
    ensures
        forall|k: int|
            0 <= k < grep_safe_from(args, i, skip_next).len() ==> !is_rg_only(
                before_eq(#[trigger] grep_safe_from(args, i, skip_next)[k]),
            ),
    decreases args.len() - i,
{
    if 0 <= i < args.len() {
        if skip_next {
            lemma_grep_safe_has_no_rg_only(args, i + 1, false);
            assert(grep_safe_from(args, i, skip_next) == grep_safe_from(args, i + 1, false));
        } else {
            let a = args[i];
            let b = before_eq(a);
            if is_rg_only(b) {
                lemma_grep_safe_has_no_rg_only(args, i + 1, !a.contains('=') && is_value_flag(b));
                assert(grep_safe_from(args, i, skip_next) == grep_safe_from(
                    args,
                    i + 1,
                    !a.contains('=') && is_value_flag(b),
                ));
            } else {
                lemma_grep_safe_has_no_rg_only(args, i + 1, false);
                let rest = grep_safe_from(args, i + 1, false);
                assert(grep_safe_from(args, i, skip_next) == seq![a] + rest);
                assert forall|k: int| 0 <= k < (seq![a] + rest).len() implies !is_rg_only(
                    before_eq(#[trigger] (seq![a] + rest)[k]),
                ) by {
                    if k > 0 {
                        assert((seq![a] + rest)[k] == rest[k - 1]);
                    }
                }
            }
        }
    }
}

/// A line cut around the pattern shows at most `max_len` characters of it,
/// plus at most two `...` marks.
pub proof fn lemma_context_cut_len(t: Seq<char>, max_len: nat, pos: int)
    requires
        max_len >= 3,
    ensures
        context_cut(t, max_len, pos).len() <= max_len + 6,
{
}

// ---------------------------------------------------------------------------
// What a grep run prints
// ---------------------------------------------------------------------------

/// The located pattern of an argument list, if any.
pub open spec fn located_pattern(args: Seq<Seq<char>>) -> Option<Seq<char>> {
    let p = positional_indices(args);
    if p.len() > 0 {
        Some(args[p[0]])
    } else {
        None
    }
}

/// The located search path of an argument list (`.` when none is given).
pub open spec fn located_path(args: Seq<Seq<char>>) -> Seq<char> {
    let p = positional_indices(args);
    if p.len() > 1 {
        args[p[1]]
    } else {
        "."@
    }
}

/// What a grep run prints to standard output and to standard error, given
/// what rg (or grep) printed. An output-format request, or standard output
/// redirected to a file, passes the output through unchanged with the trimmed
/// error output; no match prints `0 matches for '<pattern>'` (and the trimmed
/// error output when the search failed with status 2); otherwise the matches
/// are grouped by file.
pub open spec fn grep_print_spec(
    args: Seq<Seq<char>>,
    to_file: bool,
    stdout: Seq<char>,
    stderr: Seq<char>,
    exit_code: i32,
    max_results: nat,
    per_file: nat,
) -> (Seq<char>, Seq<char>) {
    let format_mode = exists|k: int| 0 <= k < args.len() && requests_format(#[trigger] args[k]);
    if format_mode || to_file {
        (stdout, if stderr.len() > 0 { trim(stderr) } else { Seq::<char>::empty() })
    } else if trim(stdout).len() == 0 {
        let shown = match located_pattern(args) {
            Some(p) => p,
            None => "?"@,
        };
        (
            "0 matches for '"@ + shown + "'"@ + seq!['\n'],
            if exit_code == 2 && trim(stderr).len() > 0 {
                trim(stderr) + seq!['\n']
            } else {
                Seq::<char>::empty()
            },
        )
    } else {
        let pattern = match located_pattern(args) {
            Some(p) => p,
            None => Seq::<char>::empty(),
        };
        (
            grouped_output(stdout, located_path(args), pattern, max_results, per_file),
            Seq::<char>::empty(),
        )
    }
}

/// What a grep run prints, `(standard output, standard error)`, once rg (or
/// the grep fallback) has run with the arguments built from `args`; `to_file`
/// tells whether standard output is redirected to a file.
pub fn grep_print(
    args: &[String],
    to_file: bool,
    stdout: &str,
    stderr: &str,
    exit_code: i32,
    max_results: usize,
    per_file: usize,
) -> (r: (String, String))
    ensures
        (r.0@, r.1@) == grep_print_spec(
            arg_views(args@),
            to_file,
            stdout@,
            stderr@,
            exit_code,
            max_results as nat,
            per_file as nat,
        ),
{
    let ghost av = arg_views(args@);
    let format_mode = has_format_flag(args);
    proof {
        let f = exists|k: int| 0 <= k < av.len() && requests_format(#[trigger] av[k]);
        if format_mode {
            let k = choose|k: int| 0 <= k < args@.len() && requests_format(#[trigger] args@[k]@);
            assert(av[k] == args@[k]@);
        } else if f {
            let k = choose|k: int| 0 <= k < av.len() && requests_format(#[trigger] av[k]);
            assert(av[k] == args@[k]@);
        }
    }
    if format_mode || to_file {
        let err = if stderr.is_empty() {
            String::new()
        } else {
            trim_str(stderr)
        };
        return (string_of_str(stdout), err);
    }
    let (_, pattern, path) = locate_pattern(args);
    proof {
        lemma_positionals_bounds(av, 0, false);
        let p = positional_indices(av);
        if p.len() > 0 {
            assert(av[p[0]] == args@[p[0]]@);
            assert(opt_view(pattern) == located_pattern(av));
        } else {
            assert(opt_view(pattern) == located_pattern(av));
        }
        if p.len() > 1 {
            assert(av[p[1]] == args@[p[1]]@);
        }
        assert(path@ == located_path(av));
    }
    let out_trim = trim_str(stdout);
    if out_trim.as_str().is_empty() {
        let err_trim = trim_str(stderr);
        let err = if exit_code == 2 && !err_trim.as_str().is_empty() {
            let mut e = chars_of(err_trim.as_str());
            e.push('\n');
            assert(e@ =~= err_trim@ + seq!['\n']);
            string_from_chars(e.as_slice())
        } else {
            String::new()
        };
        let shown = pattern_display(&pattern);
        let msg = no_match_message(shown.as_str());
        let mut m = chars_of(msg.as_str());
        m.push('\n');
        proof {
            assert(shown@ == match located_pattern(av) {
                Some(p) => p,
                None => "?"@,
            });
            assert(m@ =~= msg@ + seq!['\n']);
        }
        return (string_from_chars(m.as_slice()), err);
    }
    let pat = match &pattern {
        Some(p) => p.clone(),
        None => String::new(),
    };
    assert(pat@ == match located_pattern(av) {
        Some(p) => p,
        None => Seq::<char>::empty(),
    });
    let out = group_grep_output(stdout, path.as_str(), pat.as_str(), max_results, per_file);
    (out, String::new())
}

} // verus!
