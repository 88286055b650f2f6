//! Shortening curl responses: pretty-printed JSON or plain text, cut to a
//! number of lines.

use vstd::prelude::*;
use crate::utils::{
    append_chars, append_str, byte_len, chars_of, decimal, join, join_chars, lines, lines_of,
    push_decimal, str_byte_len, string_from_chars, trim, trim_chars, trim_str, truncate_chars,
    truncate_spec, views,
};

verus! {

/// Longest shown line of a short response, in characters.
pub const MAX_LINE_CHARS: usize = 200;

/// Lines kept of a pretty-printed JSON response.
pub const MAX_JSON_LINES: usize = 80;

/// Lines kept of a plain-text response.
pub const MAX_TEXT_LINES: usize = 30;

/// `text` cut to `max` lines: a text of at most `max` lines is given back
/// line by line, each line cut to 200 characters; a longer one keeps its first
/// `max` lines, then an empty line and `... (N more lines, B bytes total)`,
/// where `bytes` is the size of `text`.
pub open spec fn truncate_lines_spec(text: Seq<char>, bytes: nat, max: nat) -> Seq<char> {
    let ls = lines(text);
    if ls.len() <= max {
        join(ls.map_values(|l: Seq<char>| truncate_spec(l, MAX_LINE_CHARS as nat)), seq!['\n'])
    } else {
        join(ls.take(max as int).push(Seq::<char>::empty()), seq!['\n']) + seq!['\n'] + "... ("@
            + decimal((ls.len() - max) as nat) + " more lines, "@ + decimal(bytes)
            + " bytes total)"@
    }
}

/// Truncates `text` to `max` lines, appending a summary if it had more.
pub fn truncate_lines(text: &str, max: usize) -> (r: String)
    ensures
        r@ == truncate_lines_spec(text@, byte_len(text@), max as nat),
{
    let tc = chars_of(text);
    let ls = lines_of(tc.as_slice());
    let n = ls.len();
    if n <= max {
        let mut short: Vec<Vec<char>> = Vec::new();
        let mut i: usize = 0;
        while i < n
            invariant
                n == ls@.len(),
                0 <= i <= n,
                views(short@) =~= views(ls@).take(i as int).map_values(
                    |l: Seq<char>| truncate_spec(l, MAX_LINE_CHARS as nat),
                ),
            decreases n - i,
        {
            let t = truncate_chars(ls[i].as_slice(), MAX_LINE_CHARS);
            let ghost before = views(short@);
            short.push(t);
            proof {
                assert(views(short@) =~= before.push(t@));
                assert(views(ls@).take(i + 1).map_values(
                    |l: Seq<char>| truncate_spec(l, MAX_LINE_CHARS as nat),
                ) =~= views(ls@).take(i as int).map_values(
                    |l: Seq<char>| truncate_spec(l, MAX_LINE_CHARS as nat),
                ).push(truncate_spec(views(ls@)[i as int], MAX_LINE_CHARS as nat)));
            }
            i = i + 1;
        }
        proof {
            assert(views(ls@).take(n as int) =~= views(ls@));
        }
        let nl: Vec<char> = vec!['\n'];
        let out = join_chars(&short, nl.as_slice());
        proof {
            assert(nl@ =~= seq!['\n']);
        }
        return string_from_chars(out.as_slice());
    }
    let mut kept: Vec<Vec<char>> = Vec::new();
    let mut i: usize = 0;
    while i < max
        invariant
            n == ls@.len(),
            max < n,
            0 <= i <= max,
            views(kept@) =~= views(ls@).take(i as int),
        decreases max - i,
    {
        let ghost before = views(kept@);
        kept.push(ls[i].clone());
        proof {
            assert(views(kept@) =~= before.push(views(ls@)[i as int]));
            assert(views(ls@).take(i + 1) =~= views(ls@).take(i as int).push(views(ls@)[i as int]));
        }
        i = i + 1;
    }
    let ghost kept_before = views(kept@);
    kept.push(Vec::new());
    proof {
        assert(views(kept@) =~= kept_before.push(Seq::<char>::empty()));
    }
    let nl: Vec<char> = vec!['\n'];
    let mut out = join_chars(&kept, nl.as_slice());
    out.push('\n');
    append_str(&mut out, "... (");
    push_decimal(&mut out, n - max);
    append_str(&mut out, " more lines, ");
    push_decimal(&mut out, str_byte_len(text));
    append_str(&mut out, " bytes total)");
    proof {
        assert(nl@ =~= seq!['\n']);
    }
    string_from_chars(out.as_slice())
}

// ---------------------------------------------------------------------------
// JSON detection
// ---------------------------------------------------------------------------

/// Whether `serde_json::from_str::<serde_json::Value>` accepts a text.
pub uninterp spec fn json_parses(text: Seq<char>) -> bool;

/// The text `serde_json::to_string_pretty` prints for the value that
/// `serde_json::from_str::<serde_json::Value>` parses from a text.
pub uninterp spec fn json_pretty(text: Seq<char>) -> Seq<char>;

/// `serde_json::from_str::<serde_json::Value>` followed by
/// `serde_json::to_string_pretty` on the parsed value. Claimed: a text is
/// printed exactly when it parses (printing a `Value` cannot fail), and the
/// printed text is `json_pretty` of the input. What that printing looks like
/// is not stated.
#[verifier::external_body]
fn json_pretty_text(text: &str) -> (s: Option<String>)
    ensures
        s is Some <==> json_parses(text@),
        s matches Some(p) ==> p@ == json_pretty(text@),
{
    match serde_json::from_str::<serde_json::Value>(text) {
        Ok(v) => serde_json::to_string_pretty(&v).ok(),
        Err(_) => None,
    }
}

/// A trimmed response that opens with `{` or `[` and closes with `}` or `]`.
pub open spec fn looks_like_json(t: Seq<char>) -> bool {
    t.len() > 0 && (t[0] == '{' || t[0] == '[') && (t.last() == '}' || t.last() == ']')
}

/// The shortened response, given its pretty-printed JSON form when there is
/// one: that form cut to 80 lines; otherwise the trimmed text cut to 30 lines.
pub open spec fn curl_output_spec(output: Seq<char>, pretty: Option<Seq<char>>) -> Seq<char> {
    match pretty {
        Some(p) => truncate_lines_spec(p, byte_len(p), MAX_JSON_LINES as nat),
        None => truncate_lines_spec(trim(output), byte_len(trim(output)), MAX_TEXT_LINES as nat),
    }
}

/// Shortens a curl response given the pretty-printed JSON of it (`None` when
/// it is not JSON or could not be printed).
pub fn filter_curl_output_with(output: &str, pretty: Option<&str>) -> (r: String)
    ensures
        r@ == curl_output_spec(
            output@,
            match pretty {
                Some(p) => Some(p@),
                None => None,
            },
        ),
{
    match pretty {
        Some(p) => truncate_lines(p, MAX_JSON_LINES),
        None => {
            let t = trim_str(output);
            truncate_lines(t.as_str(), MAX_TEXT_LINES)
        },
    }
}

/// The pretty-printed form of a response, when its trimmed body is in braces
/// or brackets and parses as JSON.
pub open spec fn curl_pretty(output: Seq<char>) -> Option<Seq<char>> {
    let t = trim(output);
    if looks_like_json(t) && json_parses(t) {
        Some(json_pretty(t))
    } else {
        None
    }
}

/// Shortens a curl response: JSON (a trimmed body in braces or brackets that
/// serde_json parses) is pretty-printed with its values and cut to 80 lines;
/// anything else is trimmed and cut to 30 lines.
pub fn filter_curl_output(output: &str) -> (r: String)
    ensures
        r@ == curl_output_spec(output@, curl_pretty(output@)),
{
    let oc = chars_of(output);
    let t = trim_chars(oc.as_slice());
    let n = t.len();
    if n > 0 && (t[0] == '{' || t[0] == '[') && (t[n - 1] == '}' || t[n - 1] == ']') {
        let ts = string_from_chars(t.as_slice());
        if let Some(p) = json_pretty_text(ts.as_str()) {
            return filter_curl_output_with(output, Some(p.as_str()));
        }
    }
    filter_curl_output_with(output, None)
}

/// The message of a failed curl run: its trimmed error output, or its
/// trimmed standard output when the error output is blank.
pub fn curl_failure_message(stdout: &str, stderr: &str) -> (r: String)
    ensures
        r@ == if trim(stderr@).len() == 0 {
            trim(stdout@)
        } else {
            trim(stderr@)
        },
{
    let e = trim_str(stderr);
    if e.as_str().is_empty() {
        trim_str(stdout)
    } else {
        e
    }
}

} // verus!
