//! Input format auto-detection.
//!
//! The pipeline buffers a bounded head of the stream and scores it against
//! the signatures below; the highest score of at least [`MIN_SCORE`] wins.

use vstd::prelude::*;

use crate::processors::diff::{hunk_header, match_hunk_header};
use crate::text::{
    at, chars_of, contains, has_at, is_ascii_digit, is_decimal_digit, is_space, is_word, occurs, span, span_end,
    trail_len, trail_spaces, word, CharKind,
};

verus! {

/// Recognized input shapes.
#[derive(Debug, Clone, Copy, PartialEq, Eq, Default, Structural)]
pub enum FormatType {
    Pytest,
    CargoCheck,
    GitDiff,
    DockerLog,
    JsonLines,
    #[default]
    GenericLog,
}

pub open spec fn label_spec(f: FormatType) -> Seq<char> {
    match f {
        FormatType::Pytest => "pytest"@,
        FormatType::CargoCheck => "cargo"@,
        FormatType::GitDiff => "git-diff"@,
        FormatType::DockerLog => "docker-log"@,
        FormatType::JsonLines => "json-lines"@,
        FormatType::GenericLog => "generic-log"@,
    }
}

pub open spec fn fence_language_spec(f: FormatType) -> Seq<char> {
    match f {
        FormatType::GitDiff => "diff"@,
        FormatType::JsonLines => "json"@,
        _ => "text"@,
    }
}

impl FormatType {
    /// Stable machine-readable name, used in output tags and stats.
    pub fn label(self) -> (s: &'static str)
        ensures
            s@ == label_spec(self),
    {
        match self {
            FormatType::Pytest => "pytest",
            FormatType::CargoCheck => "cargo",
            FormatType::GitDiff => "git-diff",
            FormatType::DockerLog => "docker-log",
            FormatType::JsonLines => "json-lines",
            FormatType::GenericLog => "generic-log",
        }
    }

    /// Fence language for the Markdown formatter.
    pub fn fence_language(self) -> (s: &'static str)
        ensures
            s@ == fence_language_spec(self),
    {
        match self {
            FormatType::GitDiff => "diff",
            FormatType::JsonLines => "json",
            _ => "text",
        }
    }
}

/// Below this score nothing is confident enough to beat
/// [`FormatType::GenericLog`].
pub const MIN_SCORE: u32 = 4;

// ---------------------------------------------------------------------------
// Signatures
// ---------------------------------------------------------------------------

/// `^index [0-9a-f]{7,}\.\.[0-9a-f]{7,}`
pub open spec fn index_sig(s: Seq<char>) -> bool {
    let h1 = 6 + span(s, 6, CharKind::HexLower) as int;
    has_at(s, 0, "index "@) && h1 >= 13 && has_at(s, h1, ".."@) && span(
        s,
        h1 + 2,
        CharKind::HexLower,
    ) >= 7
}

/// `^=+ (FAILURES|ERRORS|short test summary info) =+`
pub open spec fn pytest_banner_sig(s: Seq<char>) -> bool {
    let e = span(s, 0, CharKind::Range('=', '=')) as int;
    e >= 1 && has_at(s, e, " "@) && ((has_at(s, e + 1, "FAILURES"@) && has_at(s, e + 9, " ="@))
        || (has_at(s, e + 1, "ERRORS"@) && has_at(s, e + 7, " ="@)) || (has_at(
        s,
        e + 1,
        "short test summary info"@,
    ) && has_at(s, e + 24, " ="@)))
}

/// `^collected \d+ items?`
pub open spec fn collected_sig(s: Seq<char>) -> bool {
    let d = span(s, 10, CharKind::Digit) as int;
    has_at(s, 0, "collected "@) && d >= 1 && has_at(s, 10 + d, " item"@)
}

/// `^(FAILED|PASSED|ERROR) \S+::`
pub open spec fn outcome_sig(s: Seq<char>) -> bool {
    let t = if has_at(s, 0, "FAILED "@) || has_at(s, 0, "PASSED "@) {
        7
    } else if has_at(s, 0, "ERROR "@) {
        6
    } else {
        -1
    };
    let r = t + span(s, t, CharKind::NonSpace);
    t > 0 && r > t && occurs(s.subrange(t + 1, r), "::"@)
}

/// `^E\s{2,}\w`
pub open spec fn pytest_error_sig(s: Seq<char>) -> bool {
    let m = span(s, 1, CharKind::Space) as int;
    s.len() > 0 && s[0] == 'E' && m >= 2 && 1 + m < s.len() && is_word(s[1 + m])
}

/// `=+ \d+ (failed|passed)` at `i`, with one `=`.
pub open spec fn tally_at(s: Seq<char>, i: int) -> bool {
    let d = span(s, i + 2, CharKind::Digit) as int;
    has_at(s, i, "= "@) && d >= 1 && (has_at(s, i + 2 + d, " failed"@) || has_at(
        s,
        i + 2 + d,
        " passed"@,
    ))
}

/// `=+ \d+ (failed|passed)` anywhere.
pub open spec fn tally_sig(s: Seq<char>) -> bool {
    exists|i: int| 0 <= i < s.len() && #[trigger] tally_at(s, i)
}

/// `^error\[E\d{4}\]:`
pub open spec fn error_code_sig(s: Seq<char>) -> bool {
    has_at(s, 0, "error[E"@) && span(s, 7, CharKind::Digit) >= 4 && has_at(s, 11, "]:"@)
}

/// `:\d+:\d+` at `m`.
pub open spec fn line_col_at(s: Seq<char>, m: int) -> bool {
    let d1 = span(s, m + 1, CharKind::Digit) as int;
    0 <= m < s.len() && s[m] == ':' && d1 >= 1 && m + 1 + d1 < s.len() && s[m + 1 + d1] == ':'
        && span(s, m + 2 + d1, CharKind::Digit) >= 1
}

/// `^\s+--> \S+:\d+:\d+`
pub open spec fn location_sig(s: Seq<char>) -> bool {
    let k = span(s, 0, CharKind::Space) as int;
    let t = k + 4;
    k >= 1 && has_at(s, k, "--> "@) && exists|m: int|
        t < m <= t + span(s, t, CharKind::NonSpace) && #[trigger] line_col_at(s, m)
}

/// `^\s*(Compiling|Checking|Finished) \S+`
pub open spec fn progress_sig(s: Seq<char>) -> bool {
    let k = span(s, 0, CharKind::Space) as int;
    let t = if has_at(s, k, "Compiling "@) {
        k + 10
    } else if has_at(s, k, "Checking "@) || has_at(s, k, "Finished "@) {
        k + 9
    } else {
        -1
    };
    t >= 0 && t < s.len() && !is_space(s[t])
}

/// `^(warning|error)(\[[^\]]+\])?: `
pub open spec fn diagnostic_sig(s: Seq<char>) -> bool {
    let p = if has_at(s, 0, "warning"@) {
        7
    } else if has_at(s, 0, "error"@) {
        5
    } else {
        -1
    };
    let n = span(s, p + 1, CharKind::Not(']')) as int;
    let q = if p >= 0 && p < s.len() && s[p] == '[' && n >= 1 && p + 1 + n < s.len() {
        p + 2 + n
    } else {
        p
    };
    p >= 0 && has_at(s, q, ": "@)
}

/// `^[a-zA-Z0-9_.-]+\s+\| `
pub open spec fn compose_sig(s: Seq<char>) -> bool {
    let n = span(s, 0, CharKind::WordDotDash) as int;
    let m = span(s, n, CharKind::Space) as int;
    n >= 1 && m >= 1 && has_at(s, n + m, "| "@)
}

pub open spec fn digit_at(s: Seq<char>, i: int) -> bool {
    0 <= i < s.len() && is_decimal_digit(s[i])
}

/// `^\d{4}-\d{2}-\d{2}T\d{2}:\d{2}:\d{2}(?:\.\d+)?Z?\s`
pub open spec fn timestamp_sig(s: Seq<char>) -> bool {
    let base = digit_at(s, 0) && digit_at(s, 1) && digit_at(s, 2) && digit_at(s, 3) && has_at(
        s,
        4,
        "-"@,
    ) && digit_at(s, 5) && digit_at(s, 6) && has_at(s, 7, "-"@) && digit_at(s, 8) && digit_at(
        s,
        9,
    ) && has_at(s, 10, "T"@) && digit_at(s, 11) && digit_at(s, 12) && has_at(s, 13, ":"@)
        && digit_at(s, 14) && digit_at(s, 15) && has_at(s, 16, ":"@) && digit_at(s, 17)
        && digit_at(s, 18);
    let f = span(s, 20, CharKind::Digit) as int;
    let p = if has_at(s, 19, "."@) && f >= 1 {
        20 + f
    } else {
        19
    };
    let z = if has_at(s, p, "Z"@) {
        p + 1
    } else {
        p
    };
    base && z < s.len() && is_space(s[z])
}

/// `YYYY-MM-DDTHH:MM:SS` at the start of `s`, each `Y M D H M S` a `\d`.
pub open spec fn date_time_prefix(s: Seq<char>) -> bool {
    &&& s.len() >= 19
    &&& forall|j: int|
        0 <= j < 19 && j != 4 && j != 7 && j != 10 && j != 13 && j != 16 ==> is_decimal_digit(
            #[trigger] s[j],
        )
    &&& s[4] == '-' && s[7] == '-' && s[10] == 'T' && s[13] == ':' && s[16] == ':'
}

/// Timestamped lines are recognised with or without fractional seconds: a
/// date and time, optionally `.` and one or more digits (ending at `f`),
/// optionally `Z`, then a space character, satisfies the timestamp
/// signature.
pub proof fn lemma_timestamps_with_fractions_match(s: Seq<char>, f: int)
    requires
        date_time_prefix(s),
        f == 19 || (s[19] == '.' && 21 <= f && forall|t: int|
            20 <= t < f ==> is_decimal_digit(#[trigger] s[t])),
        (f < s.len() && is_space(s[f])) || (f + 1 < s.len() && s[f] == 'Z' && is_space(s[f + 1])),
        // The digits end at `f` (an ASCII space or `Z` never is a digit).
        f > 19 ==> !is_decimal_digit(s[f]),
    ensures
        timestamp_sig(s),
{
    reveal_strlit("-");
    reveal_strlit("T");
    reveal_strlit(":");
    reveal_strlit(".");
    reveal_strlit("Z");
    assert forall|j: int|
        0 <= j < 19 && j != 4 && j != 7 && j != 10 && j != 13 && j != 16 implies digit_at(s, j) by {
        assert(is_decimal_digit(s[j]));
    }
    assert(has_at(s, 4, "-"@)) by {
        assert(s.subrange(4, 5) =~= "-"@);
    }
    assert(has_at(s, 7, "-"@)) by {
        assert(s.subrange(7, 8) =~= "-"@);
    }
    assert(has_at(s, 10, "T"@)) by {
        assert(s.subrange(10, 11) =~= "T"@);
    }
    assert(has_at(s, 13, ":"@)) by {
        assert(s.subrange(13, 14) =~= ":"@);
    }
    assert(has_at(s, 16, ":"@)) by {
        assert(s.subrange(16, 17) =~= ":"@);
    }
    if f > 19 {
        assert(has_at(s, 19, "."@)) by {
            assert(s.subrange(19, 20) =~= "."@);
        }
        crate::text::lemma_span(s, 20, f, CharKind::Digit);
    } else {
        assert(!has_at(s, 19, "."@)) by {
            if has_at(s, 19, "."@) {
                assert(s.subrange(19, 20)[0] == s[19]);
            }
        }
    }
    if s[f] == 'Z' {
        assert(has_at(s, f, "Z"@)) by {
            assert(s.subrange(f, f + 1) =~= "Z"@);
        }
    } else {
        assert(!has_at(s, f, "Z"@)) by {
            if has_at(s, f, "Z"@) {
                assert(s.subrange(f, f + 1)[0] == s[f]);
            }
        }
    }
}

/// `level=(info|warn|warning|error|debug)` at `i`.
pub open spec fn level_at(s: Seq<char>, i: int) -> bool {
    ||| has_at(s, i, "level=info"@)
    ||| has_at(s, i, "level=warn"@)
    ||| has_at(s, i, "level=error"@)
    ||| has_at(s, i, "level=debug"@)
}

pub open spec fn level_sig(s: Seq<char>) -> bool {
    exists|i: int| 0 <= i < s.len() && #[trigger] level_at(s, i)
}

/// No newline strictly between `a` and `b`.
pub open spec fn no_newline_between(s: Seq<char>, a: int, b: int) -> bool {
    forall|x: int| a < x < b ==> #[trigger] s[x] != '\n'
}

/// Where the colon after the quoted key at `q` sits (`"\w+"\s*:`), if any.
pub open spec fn key_colon(s: Seq<char>, q: int) -> Option<int> {
    let w = span(s, q + 1, CharKind::Word) as int;
    let c = q + 2 + w + span(s, q + 2 + w, CharKind::Space);
    if 0 <= q < s.len() && s[q] == '"' && w >= 1 && q + 1 + w < s.len() && s[q + 1 + w] == '"'
        && c < s.len() && s[c] == ':' {
        Some(c)
    } else {
        None
    }
}

/// `^\s*\{.*"\w+"\s*:.*\}\s*$`: a JSON object on one line.
pub open spec fn json_sig(s: Seq<char>) -> bool {
    let k = span(s, 0, CharKind::Space) as int;
    let z = s.len() - trail_spaces(s) - 1;
    k < z && s[k] == '{' && s[z] == '}' && exists|q: int|
        k < q && no_newline_between(s, k, q) && #[trigger] key_colon(s, q) is Some && key_colon(
            s,
            q,
        )->0 < z && no_newline_between(s, key_colon(s, q)->0, z)
}

// ---------------------------------------------------------------------------
// Matching the signatures
// ---------------------------------------------------------------------------

fn match_index(v: &Vec<char>) -> (b: bool)
    ensures
        b == index_sig(v@),
{
    proof {
        reveal_strlit("index ");
        reveal_strlit("..");
        assert("index "@.len() == 6);
        assert(".."@.len() == 2);
    }
    if !at(v, 0, "index ") {
        return false;
    }
    let h1 = span_end(v, 6, CharKind::HexLower);
    if h1 < 13 || !at(v, h1, "..") {
        return false;
    }
    span_end(v, h1 + 2, CharKind::HexLower) - (h1 + 2) >= 7
}

fn match_pytest_banner(v: &Vec<char>) -> (b: bool)
    ensures
        b == pytest_banner_sig(v@),
{
    proof {
        reveal_strlit(" ");
        reveal_strlit("FAILURES");
        reveal_strlit("ERRORS");
        reveal_strlit("short test summary info");
        assert(" "@.len() == 1);
        assert("FAILURES"@.len() == 8);
        assert("ERRORS"@.len() == 6);
        assert("short test summary info"@.len() == 23);
    }
    let e = span_end(v, 0, CharKind::Range('=', '='));
    if e < 1 || !at(v, e, " ") {
        return false;
    }
    (at(v, e + 1, "FAILURES") && at(v, e + 9, " =")) || (at(v, e + 1, "ERRORS") && at(
        v,
        e + 7,
        " =",
    )) || (at(v, e + 1, "short test summary info") && at(v, e + 24, " ="))
}

fn match_collected(v: &Vec<char>) -> (b: bool)
    ensures
        b == collected_sig(v@),
{
    proof {
        reveal_strlit("collected ");
        assert("collected "@.len() == 10);
    }
    if !at(v, 0, "collected ") {
        return false;
    }
    let e = span_end(v, 10, CharKind::Digit);
    e >= 11 && at(v, e, " item")
}

fn match_outcome(v: &Vec<char>) -> (b: bool)
    ensures
        b == outcome_sig(v@),
{
    proof {
        reveal_strlit("FAILED ");
        reveal_strlit("PASSED ");
        reveal_strlit("ERROR ");
        assert("FAILED "@.len() == 7);
        assert("PASSED "@.len() == 7);
        assert("ERROR "@.len() == 6);
    }
    let t: usize = if at(v, 0, "FAILED ") || at(v, 0, "PASSED ") {
        7
    } else if at(v, 0, "ERROR ") {
        6
    } else {
        return false;
    };
    let r = span_end(v, t, CharKind::NonSpace);
    if r <= t {
        return false;
    }
    let mut sub: Vec<char> = Vec::new();
    crate::text::push_range(&mut sub, v, t + 1, r);
    contains(&sub, "::")
}

fn match_pytest_error(v: &Vec<char>) -> (b: bool)
    ensures
        b == pytest_error_sig(v@),
{
    if v.len() == 0 || v[0] != 'E' {
        return false;
    }
    let e = span_end(v, 1, CharKind::Space);
    e >= 3 && e < v.len() && word(v[e])
}

fn match_tally_at(v: &Vec<char>, i: usize) -> (b: bool)
    requires
        i < v@.len(),
    ensures
        b == tally_at(v@, i as int),
{
    proof {
        reveal_strlit("= ");
        assert("= "@.len() == 2);
    }
    if !at(v, i, "= ") {
        return false;
    }
    let e = span_end(v, i + 2, CharKind::Digit);
    e > i + 2 && (at(v, e, " failed") || at(v, e, " passed"))
}

fn match_tally(v: &Vec<char>) -> (b: bool)
    ensures
        b == tally_sig(v@),
{
    let mut i: usize = 0;
    while i < v.len()
        invariant
            i <= v@.len(),
            forall|j: int| 0 <= j < i ==> !tally_at(v@, j),
        decreases v@.len() - i,
    {
        if match_tally_at(v, i) {
            return true;
        }
        i = i + 1;
    }
    false
}

fn match_error_code(v: &Vec<char>) -> (b: bool)
    ensures
        b == error_code_sig(v@),
{
    proof {
        reveal_strlit("error[E");
        assert("error[E"@.len() == 7);
    }
    at(v, 0, "error[E") && span_end(v, 7, CharKind::Digit) >= 11 && at(v, 11, "]:")
}

fn match_line_col(v: &Vec<char>, m: usize) -> (b: bool)
    requires
        m <= v@.len(),
    ensures
        b == line_col_at(v@, m as int),
{
    if m >= v.len() || v[m] != ':' {
        return false;
    }
    let e1 = span_end(v, m + 1, CharKind::Digit);
    if e1 == m + 1 || e1 >= v.len() || v[e1] != ':' {
        return false;
    }
    span_end(v, e1 + 1, CharKind::Digit) > e1 + 1
}

fn match_location(v: &Vec<char>) -> (b: bool)
    ensures
        b == location_sig(v@),
{
    proof {
        reveal_strlit("--> ");
        assert("--> "@.len() == 4);
    }
    let k = span_end(v, 0, CharKind::Space);
    if k < 1 || !at(v, k, "--> ") {
        return false;
    }
    let t = k + 4;
    let r = span_end(v, t, CharKind::NonSpace);
    if r <= t {
        return false;
    }
    let mut m = t + 1;
    while m < r
        invariant
            t + 1 <= m <= r,
            r <= v@.len(),
            k == span(v@, 0, CharKind::Space),
            k >= 1,
            has_at(v@, k as int, "--> "@),
            t == k + 4,
            r == t + span(v@, t as int, CharKind::NonSpace),
            forall|x: int| t < x < m ==> !line_col_at(v@, x),
        decreases r - m,
    {
        if match_line_col(v, m) {
            proof {
                assert(line_col_at(v@, m as int));
                assert(k >= 1);
                assert(has_at(v@, k as int, "--> "@));
                assert(t < m <= t + span(v@, t as int, CharKind::NonSpace));
                assert(location_sig(v@));
            }
            return true;
        }
        m = m + 1;
    }
    proof {
        crate::text::lemma_span_facts(v@, t as int, CharKind::NonSpace);
        assert(!line_col_at(v@, r as int));
    }
    false
}

fn match_progress(v: &Vec<char>) -> (b: bool)
    ensures
        b == progress_sig(v@),
{
    proof {
        reveal_strlit("Compiling ");
        reveal_strlit("Checking ");
        reveal_strlit("Finished ");
        assert("Compiling "@.len() == 10);
        assert("Checking "@.len() == 9);
        assert("Finished "@.len() == 9);
    }
    let k = span_end(v, 0, CharKind::Space);
    let t = if at(v, k, "Compiling ") {
        k + 10
    } else if at(v, k, "Checking ") || at(v, k, "Finished ") {
        k + 9
    } else {
        return false;
    };
    t < v.len() && !crate::text::space(v[t])
}

fn match_diagnostic(v: &Vec<char>) -> (b: bool)
    ensures
        b == diagnostic_sig(v@),
{
    proof {
        reveal_strlit("warning");
        reveal_strlit("error");
        assert("warning"@.len() == 7);
        assert("error"@.len() == 5);
    }
    let p: usize = if at(v, 0, "warning") {
        7
    } else if at(v, 0, "error") {
        5
    } else {
        return false;
    };
    let mut q = p;
    if p < v.len() && v[p] == '[' {
        let e = span_end(v, p + 1, CharKind::Not(']'));
        if e > p + 1 && e < v.len() {
            q = e + 1;
        }
    }
    at(v, q, ": ")
}

fn match_compose(v: &Vec<char>) -> (b: bool)
    ensures
        b == compose_sig(v@),
{
    let n = span_end(v, 0, CharKind::WordDotDash);
    let m = span_end(v, n, CharKind::Space);
    n >= 1 && m > n && at(v, m, "| ")
}

fn digit_at_exec(v: &Vec<char>, i: usize) -> (b: bool)
    ensures
        b == digit_at(v@, i as int),
{
    i < v.len() && crate::text::decimal_digit(v[i])
}

fn match_timestamp(v: &Vec<char>) -> (b: bool)
    ensures
        b == timestamp_sig(v@),
{
    proof {
        reveal_strlit(".");
        reveal_strlit("Z");
        assert("."@.len() == 1);
        assert("Z"@.len() == 1);
    }
    let base = digit_at_exec(v, 0) && digit_at_exec(v, 1) && digit_at_exec(v, 2) && digit_at_exec(
        v,
        3,
    ) && at(v, 4, "-") && digit_at_exec(v, 5) && digit_at_exec(v, 6) && at(v, 7, "-")
        && digit_at_exec(v, 8) && digit_at_exec(v, 9) && at(v, 10, "T") && digit_at_exec(v, 11)
        && digit_at_exec(v, 12) && at(v, 13, ":") && digit_at_exec(v, 14) && digit_at_exec(v, 15)
        && at(v, 16, ":") && digit_at_exec(v, 17) && digit_at_exec(v, 18);
    if !base {
        return false;
    }
    let mut p: usize = 19;
    if at(v, 19, ".") {
        let f = span_end(v, 20, CharKind::Digit);
        if f > 20 {
            p = f;
        }
    }
    let z = if at(v, p, "Z") {
        p + 1
    } else {
        p
    };
    z < v.len() && crate::text::space(v[z])
}

fn match_level(v: &Vec<char>) -> (b: bool)
    ensures
        b == level_sig(v@),
{
    let mut i: usize = 0;
    while i < v.len()
        invariant
            i <= v@.len(),
            forall|j: int| 0 <= j < i ==> !level_at(v@, j),
        decreases v@.len() - i,
    {
        if at(v, i, "level=info") || at(v, i, "level=warn") || at(v, i, "level=error") || at(
            v,
            i,
            "level=debug",
        ) {
            proof {
                assert(level_at(v@, i as int));
            }
            return true;
        }
        i = i + 1;
    }
    false
}

fn match_key_colon(v: &Vec<char>, q: usize) -> (r: Option<usize>)
    requires
        q < v.len(),
    ensures
        match r {
            Some(c) => key_colon(v@, q as int) == Some(c as int),
            None => key_colon(v@, q as int) is None,
        },
{
    if v[q] != '"' {
        return None;
    }
    let e = span_end(v, q + 1, CharKind::Word);
    if e == q + 1 || e >= v.len() || v[e] != '"' {
        return None;
    }
    let c = span_end(v, e + 1, CharKind::Space);
    if c < v.len() && v[c] == ':' {
        Some(c)
    } else {
        None
    }
}

fn match_json(v: &Vec<char>) -> (b: bool)
    ensures
        b == json_sig(v@),
{
    let n = v.len();
    let k = span_end(v, 0, CharKind::Space);
    let tr = trail_len(v);
    proof {
        crate::text::lemma_trail_spaces_bound(v@);
    }
    if tr >= n {
        return false;
    }
    let z = n - tr - 1;
    if !(k < z && v[k] == '{' && v[z] == '}') {
        return false;
    }
    let mut q = k + 1;
    while q < z
        invariant
            k < q <= z < n == v@.len(),
            z == v@.len() - trail_spaces(v@) - 1,
            k == span(v@, 0, CharKind::Space),
            v@[k as int] == '{',
            v@[z as int] == '}',
            no_newline_between(v@, k as int, q as int),
            forall|x: int| k < x < q ==> !(#[trigger] key_colon(v@, x) is Some && key_colon(
                v@,
                x,
            )->0 < z && no_newline_between(v@, key_colon(v@, x)->0, z as int)),
        decreases z - q,
    {
        match match_key_colon(v, q) {
            Some(c) => {
                if c < z {
                    let e = span_end(v, c + 1, CharKind::Not('\n'));
                    proof {
                        crate::text::lemma_span_facts(v@, c + 1, CharKind::Not('\n'));
                    }
                    if e >= z {
                        proof {
                            assert(no_newline_between(v@, c as int, z as int));
                            assert(key_colon(v@, q as int) is Some);
                            assert(k < q && no_newline_between(v@, k as int, q as int));
                            assert(key_colon(v@, q as int)->0 < z);
                            assert(v@.len() - trail_spaces(v@) - 1 == z);
                            assert(json_sig(v@));
                        }
                        return true;
                    }
                    proof {
                        assert(v@[e as int] == '\n');
                        assert(!no_newline_between(v@, c as int, z as int));
                    }
                }
            },
            None => {},
        }
        if v[q] == '\n' {
            proof {
                assert forall|x: int| q < x implies !no_newline_between(v@, k as int, x) by {
                    assert(v@[q as int] == '\n');
                }
            }
            return false;
        }
        q = q + 1;
    }
    proof {
        assert forall|x: int|
            k < x && no_newline_between(v@, k as int, x) && #[trigger] key_colon(v@, x) is Some
                implies !(key_colon(v@, x)->0 < z && no_newline_between(
            v@,
            key_colon(v@, x)->0,
            z as int,
        )) by {
            if x >= z {
                crate::text::lemma_span_facts(v@, x + 1, CharKind::Word);
            }
        }
    }
    false
}

// ---------------------------------------------------------------------------
// Scoring
// ---------------------------------------------------------------------------

/// Points a line earns for a format: the weights of the format's signatures
/// that match it.
pub open spec fn line_score(s: Seq<char>, f: FormatType) -> nat {
    if s.len() == 0 {
        0
    } else {
        match f {
            FormatType::GitDiff => (if has_at(s, 0, "diff --git "@) {
                6nat
            } else {
                0
            }) + (if hunk_header(s) is Some {
                3nat
            } else {
                0
            }) + (if has_at(s, 0, "--- a/"@) {
                2nat
            } else {
                0
            }) + (if index_sig(s) {
                2nat
            } else {
                0
            }),
            FormatType::Pytest => (if pytest_banner_sig(s) {
                6nat
            } else {
                0
            }) + (if collected_sig(s) {
                4nat
            } else {
                0
            }) + (if outcome_sig(s) {
                3nat
            } else {
                0
            }) + (if pytest_error_sig(s) {
                2nat
            } else {
                0
            }) + (if tally_sig(s) {
                2nat
            } else {
                0
            }),
            FormatType::CargoCheck => (if error_code_sig(s) {
                6nat
            } else {
                0
            }) + (if location_sig(s) {
                4nat
            } else {
                0
            }) + (if progress_sig(s) {
                3nat
            } else {
                0
            }) + (if diagnostic_sig(s) {
                2nat
            } else {
                0
            }),
            FormatType::DockerLog => (if compose_sig(s) {
                3nat
            } else {
                0
            }) + (if timestamp_sig(s) {
                2nat
            } else {
                0
            }) + (if level_sig(s) {
                2nat
            } else {
                0
            }),
            FormatType::JsonLines => if json_sig(s) {
                2nat
            } else {
                0
            },
            FormatType::GenericLog => 0,
        }
    }
}

/// The sum of the line scores, before saturation.
pub open spec fn score_sum(lines: Seq<Seq<char>>, f: FormatType) -> nat
    decreases lines.len(),
{
    if lines.len() == 0 {
        0
    } else {
        score_sum(lines.drop_last(), f) + line_score(lines.last(), f)
    }
}

/// A format's score over the lines, saturated at `u32::MAX`.
pub open spec fn score(lines: Seq<Seq<char>>, f: FormatType) -> nat {
    if score_sum(lines, f) <= u32::MAX {
        score_sum(lines, f)
    } else {
        u32::MAX as nat
    }
}

/// The format at each index of the score table.
pub open spec fn format_at(i: int) -> FormatType {
    if i == 0 {
        FormatType::Pytest
    } else if i == 1 {
        FormatType::CargoCheck
    } else if i == 2 {
        FormatType::GitDiff
    } else if i == 3 {
        FormatType::DockerLog
    } else if i == 4 {
        FormatType::JsonLines
    } else {
        FormatType::GenericLog
    }
}

/// The score table, in [`format_at`] order.
pub open spec fn scores(lines: Seq<Seq<char>>) -> Seq<nat> {
    Seq::new(6, |i: int| score(lines, format_at(i)))
}

/// The index of the highest score among the first `n`; on a tie, the later.
pub open spec fn best_upto(sc: Seq<nat>, n: int) -> int
    decreases n,
{
    if n <= 1 {
        0
    } else {
        let b = best_upto(sc, n - 1);
        if sc[n - 1] >= sc[b] {
            n - 1
        } else {
            b
        }
    }
}

/// The detected format: the highest-scoring one (the later on a tie), or
/// [`FormatType::GenericLog`] when no score reaches [`MIN_SCORE`].
pub open spec fn detect_spec(lines: Seq<Seq<char>>) -> FormatType {
    let sc = scores(lines);
    let b = best_upto(sc, 6);
    if sc[b] < MIN_SCORE {
        FormatType::GenericLog
    } else {
        format_at(b)
    }
}

/// No line earns anything for the generic format.
proof fn lemma_generic_scores_nothing(lines: Seq<Seq<char>>)
    ensures
        score_sum(lines, FormatType::GenericLog) == 0,
    decreases lines.len(),
{
    if lines.len() > 0 {
        lemma_generic_scores_nothing(lines.drop_last());
    }
}

proof fn lemma_best_upto(sc: Seq<nat>, n: int)
    requires
        1 <= n <= sc.len(),
    ensures
        0 <= best_upto(sc, n) < n,
        forall|i: int| 0 <= i < n ==> #[trigger] sc[i] <= sc[best_upto(sc, n)],
    decreases n,
{
    if n > 1 {
        lemma_best_upto(sc, n - 1);
    }
}

/// The detector picks the best-scoring format: a detected format other than
/// [`FormatType::GenericLog`] scores at least [`MIN_SCORE`] and no less than
/// any other format; when nothing reaches [`MIN_SCORE`], the answer is
/// [`FormatType::GenericLog`].
pub proof fn lemma_detect_picks_a_best_score(lines: Seq<Seq<char>>)
    ensures
        detect_spec(lines) != FormatType::GenericLog ==> exists|b: int|
            0 <= b < 5 && format_at(b) == detect_spec(lines) && scores(lines)[b] >= MIN_SCORE
                && forall|i: int| 0 <= i < 6 ==> #[trigger] scores(lines)[i] <= scores(lines)[b],
        (forall|i: int| 0 <= i < 6 ==> #[trigger] scores(lines)[i] < MIN_SCORE) ==> detect_spec(
            lines,
        ) == FormatType::GenericLog,
{
    let sc = scores(lines);
    lemma_best_upto(sc, 6);
    let b = best_upto(sc, 6);
    assert(sc[b] <= sc[b]);
}

fn bump(total: u32, w: u32, hit: bool) -> (r: u32)
    ensures
        r == (if hit {
            if total + w <= u32::MAX {
                total + w
            } else {
                u32::MAX as int
            }
        } else {
            total as int
        }),
{
    if hit {
        total.saturating_add(w)
    } else {
        total
    }
}

fn line_scores(v: &Vec<char>) -> (r: (u32, u32, u32, u32, u32))
    ensures
        r.0 == line_score(v@, FormatType::Pytest),
        r.1 == line_score(v@, FormatType::CargoCheck),
        r.2 == line_score(v@, FormatType::GitDiff),
        r.3 == line_score(v@, FormatType::DockerLog),
        r.4 == line_score(v@, FormatType::JsonLines),
{
    if v.len() == 0 {
        return (0, 0, 0, 0, 0);
    }
    let py = bump(0, 6, match_pytest_banner(v));
    let py = bump(py, 4, match_collected(v));
    let py = bump(py, 3, match_outcome(v));
    let py = bump(py, 2, match_pytest_error(v));
    let py = bump(py, 2, match_tally(v));
    let ca = bump(0, 6, match_error_code(v));
    let ca = bump(ca, 4, match_location(v));
    let ca = bump(ca, 3, match_progress(v));
    let ca = bump(ca, 2, match_diagnostic(v));
    let gd = bump(0, 6, at(v, 0, "diff --git "));
    let gd = bump(gd, 3, match_hunk_header(v).is_some());
    let gd = bump(gd, 2, at(v, 0, "--- a/"));
    let gd = bump(gd, 2, match_index(v));
    let dk = bump(0, 3, match_compose(v));
    let dk = bump(dk, 2, match_timestamp(v));
    let dk = bump(dk, 2, match_level(v));
    let js = bump(0, 2, match_json(v));
    (py, ca, gd, dk, js)
}

/// Score `lines` and return the most likely format.
pub fn detect(lines: &[&str]) -> (f: FormatType)
    ensures
        f == detect_spec(lines@.map_values(|l: &str| l@)),
{
    let ghost ls = lines@.map_values(|l: &str| l@);
    let mut sc: [u32; 6] = [0, 0, 0, 0, 0, 0];
    let mut i: usize = 0;
    proof {
        assert(ls.take(0) =~= Seq::<Seq<char>>::empty());
    }
    while i < lines.len()
        invariant
            i <= lines@.len(),
            ls == lines@.map_values(|l: &str| l@),
            sc@[0] == score(ls.take(i as int), FormatType::Pytest),
            sc@[1] == score(ls.take(i as int), FormatType::CargoCheck),
            sc@[2] == score(ls.take(i as int), FormatType::GitDiff),
            sc@[3] == score(ls.take(i as int), FormatType::DockerLog),
            sc@[4] == score(ls.take(i as int), FormatType::JsonLines),
            sc@[5] == 0,
            sc@.len() == 6,
        decreases lines@.len() - i,
    {
        let v = chars_of(lines[i]);
        let (a, b, c, d, e) = line_scores(&v);
        proof {
            assert(ls.take(i + 1).drop_last() =~= ls.take(i as int));
            assert(ls.take(i + 1).last() == v@);
        }
        sc[0] = sc[0].saturating_add(a);
        sc[1] = sc[1].saturating_add(b);
        sc[2] = sc[2].saturating_add(c);
        sc[3] = sc[3].saturating_add(d);
        sc[4] = sc[4].saturating_add(e);
        i = i + 1;
    }
    proof {
        assert(ls.take(lines@.len() as int) =~= ls);
        lemma_generic_scores_nothing(ls);
        assert forall|x: int| 0 <= x < 6 implies #[trigger] sc@[x] == scores(ls)[x] by {
            if x == 0 {
            } else if x == 1 {
            } else if x == 2 {
            } else if x == 3 {
            } else if x == 4 {
            } else {
            }
        }
    }
    // The last of equal maxima wins.
    let mut best: usize = 0;
    let mut k: usize = 1;
    while k < 6
        invariant
            1 <= k <= 6,
            best < k,
            sc@.len() == 6,
            forall|x: int| 0 <= x < 6 ==> #[trigger] sc@[x] == scores(ls)[x],
            best == best_upto(scores(ls), k as int),
        decreases 6 - k,
    {
        if sc[k] >= sc[best] {
            best = k;
        }
        k = k + 1;
    }
    if sc[best] < MIN_SCORE {
        return FormatType::GenericLog;
    }
    from_index(best)
}

/// The position of a format in the score table.
pub fn index(format: FormatType) -> (i: usize)
    ensures
        i < 6,
        format_at(i as int) == format,
{
    match format {
        FormatType::Pytest => 0,
        FormatType::CargoCheck => 1,
        FormatType::GitDiff => 2,
        FormatType::DockerLog => 3,
        FormatType::JsonLines => 4,
        FormatType::GenericLog => 5,
    }
}

/// The format at a position of the score table.
pub fn from_index(idx: usize) -> (f: FormatType)
    ensures
        f == format_at(idx as int),
{
    match idx {
        0 => FormatType::Pytest,
        1 => FormatType::CargoCheck,
        2 => FormatType::GitDiff,
        3 => FormatType::DockerLog,
        4 => FormatType::JsonLines,
        _ => FormatType::GenericLog,
    }
}

} // verus!
