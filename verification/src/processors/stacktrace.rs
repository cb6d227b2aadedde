//! Stack-trace folding for Python, pytest, JavaScript and Rust.
//!
//! A trace is collected frame by frame, frames are classified as user or
//! vendor code by path, and each contiguous vendor run longer than
//! `keep_frames` is replaced by `[... N vendor frames omitted ...]`. The
//! exception line and every user frame always survive.

use vstd::prelude::*;

use crate::processors::{content_of, lemma_content_add, lemma_content_of_markers, marker_line};
use crate::text::{
    all_space, at, chars_of, contains, digit, equals, has_at, is_ascii_digit, is_space, is_subseq, is_word,
    lemma_all_space_trim_empty, lemma_subseq_concat, lemma_subseq_empty, lemma_subseq_refl,
    lemma_subseq_prefix, lemma_subseq_trans, lemma_subseq_widen,
    lines_view, occurs, push_decimal, push_lines, push_range, push_str, space, span, span_end,
    string_of, trim, trim_bounds, word, CharKind,
};

verus! {

// ---------------------------------------------------------------------------
// Line shapes
// ---------------------------------------------------------------------------

/// `  File "app/main.py", line 42, in handler`: the bounds of the quoted path.
///
/// Grammar: spaces, `File "`, a path without quotes, `", line `, digits, and
/// then either the end of the line or `, in ` and a rest without newline.
pub open spec fn py_frame(s: Seq<char>) -> Option<(int, int)> {
    let k = span(s, 0, CharKind::Space) as int;
    if !has_at(s, k, "File \""@) {
        None
    } else {
        let p0 = k + 6;
        let q = p0 + span(s, p0, CharKind::Not('"'));
        if !has_at(s, q, "\", line "@) {
            None
        } else {
            let d0 = q + 8;
            let r = d0 + span(s, d0, CharKind::Digit);
            if r == d0 {
                None
            } else if r == s.len() || (has_at(s, r, ", in "@) && r + 5 + span(
                s,
                r + 5,
                CharKind::Not('\n'),
            ) == s.len()) {
                Some((p0, q))
            } else {
                None
            }
        }
    }
}

/// pytest long-form frame `tests/test_api.py:12: in test_get`: the end of the
/// path, which runs from the start of the line to the first colon.
///
/// Grammar: a path whose first character is neither space nor colon, `:`,
/// digits, `: in `, one space-free word, then only spaces.
pub open spec fn pytest_frame(s: Seq<char>) -> Option<int> {
    if s.len() == 0 || is_space(s[0]) || s[0] == ':' {
        None
    } else {
        let c = span(s, 0, CharKind::Not(':')) as int;
        if c >= s.len() {
            None
        } else {
            let e = c + 1 + span(s, c + 1, CharKind::Digit);
            if e == c + 1 || !has_at(s, e, ": in "@) {
                None
            } else {
                let t = e + 5;
                let w = t + span(s, t, CharKind::NonSpace);
                if w > t && w + span(s, w, CharKind::Space) == s.len() {
                    Some(c)
                } else {
                    None
                }
            }
        }
    }
}

/// The line is indented and its first word is `at` followed by a space.
pub open spec fn at_line(s: Seq<char>) -> bool {
    let k = span(s, 0, CharKind::Space) as int;
    k >= 1 && has_at(s, k, "at "@)
}

/// Where the text after `at` starts: past the spaces that follow it.
pub open spec fn after_at(s: Seq<char>) -> int {
    let k = span(s, 0, CharKind::Space) as int;
    k + 2 + span(s, k + 2, CharKind::Space)
}

/// JavaScript frame `    at handler (/srv/app/index.js:10:15)`: an indented
/// `at `, then text without newline that starts with a non-space character.
pub open spec fn js_frame(s: Seq<char>) -> bool {
    at_line(s) && after_at(s) < s.len() && after_at(s) + span(s, after_at(s), CharKind::Not('\n'))
        == s.len()
}

/// The `at` line under a Rust backtrace frame:
/// `             at /rustc/abc/library/core/src/panicking.rs:72`.
pub open spec fn rust_at(s: Seq<char>) -> bool {
    at_line(s) && after_at(s) < s.len()
}

/// Rust backtrace frame `   7: core::panicking::panic_fmt`: spaces, digits
/// (the first an ASCII one), `:`, spaces, and something.
pub open spec fn rust_frame(s: Seq<char>) -> bool {
    let k = span(s, 0, CharKind::Space) as int;
    let d = k + span(s, k, CharKind::Digit);
    let m = d + 1 + span(s, d + 1, CharKind::Space);
    d > k && is_ascii_digit(s[k]) && d < s.len() && s[d] == ':' && m > d + 1 && m < s.len()
}

/// The keywords an exception line is named after.
pub open spec fn keyword_at(s: Seq<char>, i: int) -> bool {
    ||| has_at(s, i, "Error"@) && word_ends(s, i + 5)
    ||| has_at(s, i, "Exception"@) && word_ends(s, i + 9)
    ||| has_at(s, i, "Warning"@) && word_ends(s, i + 7)
    ||| has_at(s, i, "Failure"@) && word_ends(s, i + 7)
    ||| has_at(s, i, "Panic"@) && word_ends(s, i + 5)
}

/// A word boundary after a word character at `p - 1`.
pub open spec fn word_ends(s: Seq<char>, p: int) -> bool {
    p == s.len() || !is_word(s[p])
}

/// `ValueError: expected an int`: a dotted name that ends in `Error`,
/// `Exception`, `Warning`, `Failure` or `Panic` as a whole word.
pub open spec fn exception_line(s: Seq<char>) -> bool {
    exists|i: int| 0 <= i <= span(s, 0, CharKind::WordOrDot) && #[trigger] keyword_at(s, i)
}

/// Path fragments that mark a frame as third-party code.
pub open spec fn is_vendor(path: Seq<char>) -> bool {
    ||| occurs(path, "/node_modules/"@)
    ||| occurs(path, "\\node_modules\\"@)
    ||| occurs(path, "/site-packages/"@)
    ||| occurs(path, "/dist-packages/"@)
    ||| occurs(path, "/.venv/"@)
    ||| occurs(path, "/venv/lib/"@)
    ||| occurs(path, "/.pyenv/"@)
    ||| occurs(path, "/usr/lib/python"@)
    ||| occurs(path, "/lib/python3"@)
    ||| occurs(path, "<frozen "@)
    ||| occurs(path, "node:internal/"@)
    ||| occurs(path, "/rustc/"@)
    ||| occurs(path, "/.cargo/registry/"@)
    ||| occurs(path, "/.rustup/toolchains/"@)
    ||| occurs(path, "/go/pkg/mod/"@)
    ||| occurs(path, "/vendor/"@)
    ||| occurs(path, "\\site-packages\\"@)
    // A frame with no source file of its own is runtime plumbing.
    ||| occurs(path, "(<anonymous>)"@)
    ||| occurs(path, "(native)"@)
}

/// Lines worth lifting into the error summary.
pub open spec fn is_error_line(t: Seq<char>) -> bool {
    ||| exception_line(t)
    ||| has_at(t, 0, "E "@)
    ||| has_at(t, 0, "error:"@)
    ||| has_at(t, 0, "error["@)
}

fn match_py_frame(v: &Vec<char>) -> (r: Option<(usize, usize)>)
    ensures
        match r {
            Some((a, b)) => py_frame(v@) == Some((a as int, b as int)),
            None => py_frame(v@) is None,
        },
{
    proof {
        reveal_strlit("File \"");
        reveal_strlit("\", line ");
        reveal_strlit(", in ");
        assert("File \""@.len() == 6);
        assert("\", line "@.len() == 8);
        assert(", in "@.len() == 5);
    }
    let k = span_end(v, 0, CharKind::Space);
    if !at(v, k, "File \"") {
        return None;
    }
    let p0 = k + 6;
    let q = span_end(v, p0, CharKind::Not('"'));
    if !at(v, q, "\", line ") {
        return None;
    }
    let d0 = q + 8;
    let r = span_end(v, d0, CharKind::Digit);
    if r == d0 {
        return None;
    }
    if r == v.len() {
        return Some((p0, q));
    }
    if at(v, r, ", in ") {
        let e = span_end(v, r + 5, CharKind::Not('\n'));
        if e == v.len() {
            return Some((p0, q));
        }
    }
    None
}

fn match_pytest_frame(v: &Vec<char>) -> (r: Option<usize>)
    ensures
        match r {
            Some(c) => pytest_frame(v@) == Some(c as int),
            None => pytest_frame(v@) is None,
        },
{
    proof {
        reveal_strlit(": in ");
        assert(": in "@.len() == 5);
    }
    if v.len() == 0 || space(v[0]) || v[0] == ':' {
        return None;
    }
    let c = span_end(v, 0, CharKind::Not(':'));
    if c >= v.len() {
        return None;
    }
    let e = span_end(v, c + 1, CharKind::Digit);
    if e == c + 1 || !at(v, e, ": in ") {
        return None;
    }
    let t = e + 5;
    let w = span_end(v, t, CharKind::NonSpace);
    if w > t && span_end(v, w, CharKind::Space) == v.len() {
        Some(c)
    } else {
        None
    }
}

fn match_at_line(v: &Vec<char>) -> (r: Option<usize>)
    ensures
        match r {
            Some(t) => at_line(v@) && t == after_at(v@),
            None => !at_line(v@),
        },
{
    proof {
        reveal_strlit("at ");
        assert("at "@.len() == 3);
    }
    let k = span_end(v, 0, CharKind::Space);
    if k >= 1 && at(v, k, "at ") {
        Some(span_end(v, k + 2, CharKind::Space))
    } else {
        None
    }
}

fn match_js_frame(v: &Vec<char>) -> (b: bool)
    ensures
        b == js_frame(v@),
{
    match match_at_line(v) {
        Some(t) => t < v.len() && span_end(v, t, CharKind::Not('\n')) == v.len(),
        None => false,
    }
}

fn match_rust_at(v: &Vec<char>) -> (b: bool)
    ensures
        b == rust_at(v@),
{
    match match_at_line(v) {
        Some(t) => t < v.len(),
        None => false,
    }
}

fn match_rust_frame(v: &Vec<char>) -> (b: bool)
    ensures
        b == rust_frame(v@),
{
    let k = span_end(v, 0, CharKind::Space);
    let d = span_end(v, k, CharKind::Digit);
    if d > k && digit(v[k]) && d < v.len() && v[d] == ':' {
        let m = span_end(v, d + 1, CharKind::Space);
        m > d + 1 && m < v.len()
    } else {
        false
    }
}

fn word_ends_at(v: &Vec<char>, p: usize) -> (b: bool)
    requires
        p <= v@.len(),
    ensures
        b == word_ends(v@, p as int),
{
    p == v.len() || !word(v[p])
}

fn match_keyword(v: &Vec<char>, i: usize) -> (b: bool)
    requires
        i <= v@.len(),
    ensures
        b == keyword_at(v@, i as int),
{
    proof {
        reveal_strlit("Error");
        reveal_strlit("Exception");
        reveal_strlit("Warning");
        reveal_strlit("Failure");
        reveal_strlit("Panic");
        assert("Error"@.len() == 5);
        assert("Exception"@.len() == 9);
        assert("Warning"@.len() == 7);
        assert("Failure"@.len() == 7);
        assert("Panic"@.len() == 5);
    }
    (at(v, i, "Error") && word_ends_at(v, i + 5)) || (at(v, i, "Exception") && word_ends_at(
        v,
        i + 9,
    )) || (at(v, i, "Warning") && word_ends_at(v, i + 7)) || (at(v, i, "Failure")
        && word_ends_at(v, i + 7)) || (at(v, i, "Panic") && word_ends_at(v, i + 5))
}

fn match_exception_line(v: &Vec<char>) -> (b: bool)
    ensures
        b == exception_line(v@),
{
    let w = span_end(v, 0, CharKind::WordOrDot);
    let mut i: usize = 0;
    while i < w
        invariant
            w == span(v@, 0, CharKind::WordOrDot),
            i <= w <= v@.len(),
            forall|j: int| 0 <= j < i ==> !keyword_at(v@, j),
        decreases w - i,
    {
        if match_keyword(v, i) {
            return true;
        }
        i = i + 1;
    }
    match_keyword(v, w)
}

fn vendor_path(v: &Vec<char>) -> (b: bool)
    ensures
        b == is_vendor(v@),
{
    contains(v, "/node_modules/") || contains(v, "\\node_modules\\") || contains(
        v,
        "/site-packages/",
    ) || contains(v, "/dist-packages/") || contains(v, "/.venv/") || contains(v, "/venv/lib/")
        || contains(v, "/.pyenv/") || contains(v, "/usr/lib/python") || contains(
        v,
        "/lib/python3",
    ) || contains(v, "<frozen ") || contains(v, "node:internal/") || contains(v, "/rustc/")
        || contains(v, "/.cargo/registry/") || contains(v, "/.rustup/toolchains/") || contains(
        v,
        "/go/pkg/mod/",
    ) || contains(v, "/vendor/") || contains(v, "\\site-packages\\") || contains(
        v,
        "(<anonymous>)",
    ) || contains(v, "(native)")
}

fn error_line(t: &Vec<char>) -> (b: bool)
    ensures
        b == is_error_line(t@),
{
    match_exception_line(t) || at(t, 0, "E ") || at(t, 0, "error:") || at(t, 0, "error[")
}

// ---------------------------------------------------------------------------
// Folding vendor runs
// ---------------------------------------------------------------------------

/// One frame of a collected trace: its lines, and whether it is vendor code.
pub struct FrameModel {
    pub lines: Seq<Seq<char>>,
    pub vendor: bool,
}

/// What the folded trace is made of: a frame kept whole, or a marker that
/// stands for a number of omitted vendor frames.
pub enum FoldItem {
    Frame(int),
    Omitted(nat),
}

/// The first index at or after `i` that is not a vendor frame.
pub open spec fn run_end(frames: Seq<FrameModel>, i: int) -> int
    decreases frames.len() - i,
{
    if 0 <= i < frames.len() && frames[i].vendor {
        run_end(frames, i + 1)
    } else {
        i
    }
}

pub proof fn lemma_run_end(frames: Seq<FrameModel>, i: int)
    requires
        0 <= i <= frames.len(),
    ensures
        i <= run_end(frames, i) <= frames.len(),
        forall|j: int| i <= j < run_end(frames, i) ==> (#[trigger] frames[j]).vendor,
        run_end(frames, i) == frames.len() || !frames[run_end(frames, i)].vendor,
    decreases frames.len() - i,
{
    if i < frames.len() && frames[i].vendor {
        lemma_run_end(frames, i + 1);
    }
}

/// Frames `a..b`, kept whole.
pub open spec fn frames_range(a: int, b: int) -> Seq<FoldItem> {
    Seq::new((b - a) as nat, |k: int| FoldItem::Frame(a + k))
}

/// How the vendor run `i..end` is shown: whole when it is short, otherwise the
/// pinned outermost frame (if any), a marker, and the `keep` deepest frames.
pub open spec fn run_items(i: int, end: int, keep: nat, pinned: nat) -> Seq<FoldItem> {
    let n = end - i;
    if n <= keep + pinned {
        frames_range(i, end)
    } else {
        (if pinned == 1 {
            seq![FoldItem::Frame(i)]
        } else {
            Seq::empty()
        }) + seq![FoldItem::Omitted((n - keep - pinned) as nat)] + frames_range(end - keep, end)
    }
}

/// The folded shape of `frames[i..]`. `pin` pins the outermost frame when it
/// opens a vendor run.
pub open spec fn fold_items(frames: Seq<FrameModel>, i: int, keep: nat, pin: bool) -> Seq<
    FoldItem,
>
    decreases frames.len() - i,
{
    if i < 0 || i >= frames.len() {
        Seq::empty()
    } else if !frames[i].vendor {
        seq![FoldItem::Frame(i)] + fold_items(frames, i + 1, keep, pin)
    } else {
        let end = run_end(frames, i);
        proof {
            lemma_run_end(frames, i + 1);
        }
        let pinned: nat = if i == 0 && pin {
            1
        } else {
            0
        };
        run_items(i, end, keep, pinned) + fold_items(frames, end, keep, pin)
    }
}

/// `[... N vendor frames omitted ...]`
pub open spec fn omitted_marker(n: nat) -> Seq<char> {
    "[... "@ + crate::text::decimal(n) + " vendor frames omitted ...]"@
}

pub open spec fn item_lines(frames: Seq<FrameModel>, it: FoldItem) -> Seq<Seq<char>> {
    match it {
        FoldItem::Frame(i) => frames[i].lines,
        FoldItem::Omitted(n) => seq![omitted_marker(n)],
    }
}

pub open spec fn render_items(frames: Seq<FrameModel>, items: Seq<FoldItem>) -> Seq<Seq<char>>
    decreases items.len(),
{
    if items.len() == 0 {
        Seq::empty()
    } else {
        item_lines(frames, items[0]) + render_items(frames, items.drop_first())
    }
}

/// The lines of a folded trace.
pub open spec fn fold_spec(frames: Seq<FrameModel>, keep: nat, pin: bool) -> Seq<Seq<char>> {
    render_items(frames, fold_items(frames, 0, keep, pin))
}

pub proof fn lemma_render_add(frames: Seq<FrameModel>, a: Seq<FoldItem>, b: Seq<FoldItem>)
    ensures
        render_items(frames, a + b) == render_items(frames, a) + render_items(frames, b),
    decreases a.len(),
{
    if a.len() == 0 {
        assert(a + b =~= b);
    } else {
        assert((a + b).drop_first() =~= a.drop_first() + b);
        lemma_render_add(frames, a.drop_first(), b);
        assert(render_items(frames, a + b) =~= render_items(frames, a) + render_items(frames, b));
    }
}

pub proof fn lemma_render_push(frames: Seq<FrameModel>, a: Seq<FoldItem>, x: FoldItem)
    ensures
        render_items(frames, a.push(x)) == render_items(frames, a) + item_lines(frames, x),
{
    lemma_render_add(frames, a, seq![x]);
    assert(a.push(x) =~= a + seq![x]);
    let s1 = seq![x];
    assert(s1[0] == x);
    assert(s1.drop_first() =~= Seq::<FoldItem>::empty());
    assert(render_items(frames, Seq::<FoldItem>::empty()) =~= Seq::<Seq<char>>::empty());
    assert(render_items(frames, s1) =~= item_lines(frames, x));
}

/// Number of frames kept whole.
pub open spec fn kept_count(items: Seq<FoldItem>) -> nat
    decreases items.len(),
{
    if items.len() == 0 {
        0
    } else {
        (if items[0] is Frame {
            1nat
        } else {
            0nat
        }) + kept_count(items.drop_first())
    }
}

/// Number of frames the markers stand for.
pub open spec fn omitted_count(items: Seq<FoldItem>) -> nat
    decreases items.len(),
{
    if items.len() == 0 {
        0
    } else {
        (match items[0] {
            FoldItem::Omitted(n) => n,
            FoldItem::Frame(_) => 0,
        }) + omitted_count(items.drop_first())
    }
}

proof fn lemma_counts_add(a: Seq<FoldItem>, b: Seq<FoldItem>)
    ensures
        kept_count(a + b) == kept_count(a) + kept_count(b),
        omitted_count(a + b) == omitted_count(a) + omitted_count(b),
    decreases a.len(),
{
    if a.len() == 0 {
        assert(a + b =~= b);
    } else {
        assert((a + b).drop_first() =~= a.drop_first() + b);
        lemma_counts_add(a.drop_first(), b);
    }
}

proof fn lemma_range_counts(a: int, b: int)
    requires
        a <= b,
    ensures
        kept_count(frames_range(a, b)) == b - a,
        omitted_count(frames_range(a, b)) == 0,
    decreases b - a,
{
    if a < b {
        assert(frames_range(a, b).drop_first() =~= frames_range(a + 1, b));
        lemma_range_counts(a + 1, b);
    }
}

/// Frame indices of `items` lie in `lo..hi` and increase strictly.
pub open spec fn frames_ordered(items: Seq<FoldItem>, lo: int, hi: int) -> bool {
    &&& forall|x: int|
        0 <= x < items.len() && items[x] is Frame ==> lo <= (#[trigger] items[x])->Frame_0 < hi
    &&& forall|x: int, y: int|
        0 <= x < y < items.len() && items[x] is Frame && items[y] is Frame ==> (
        #[trigger] items[x])->Frame_0 < (#[trigger] items[y])->Frame_0
}

proof fn lemma_ordered_add(a: Seq<FoldItem>, b: Seq<FoldItem>, lo: int, mid: int, hi: int)
    requires
        lo <= mid <= hi,
        frames_ordered(a, lo, mid),
        frames_ordered(b, mid, hi),
    ensures
        frames_ordered(a + b, lo, hi),
{
    let c = a + b;
    assert forall|x: int| 0 <= x < c.len() && c[x] is Frame implies lo <= (#[trigger] c[x])->Frame_0
        < hi by {
        if x >= a.len() {
            assert(c[x] == b[x - a.len()]);
        } else {
            assert(c[x] == a[x]);
        }
    }
    assert forall|x: int, y: int|
        0 <= x < y < c.len() && c[x] is Frame && c[y] is Frame implies (#[trigger] c[x])->Frame_0 < (
        #[trigger] c[y])->Frame_0 by {
        if y < a.len() {
            assert(c[x] == a[x]);
            assert(c[y] == a[y]);
        } else if x >= a.len() {
            assert(c[x] == b[x - a.len()]);
            assert(c[y] == b[y - a.len()]);
        } else {
            assert(c[x] == a[x]);
            assert(c[y] == b[y - a.len()]);
        }
    }
}

proof fn lemma_range_ordered(a: int, b: int)
    requires
        a <= b,
    ensures
        frames_ordered(frames_range(a, b), a, b),
{
}

/// The folded shape of `frames[i..]` keeps every user frame, keeps frame
/// order, and accounts for every frame exactly once.
proof fn lemma_fold_items_from(frames: Seq<FrameModel>, i: int, keep: nat, pin: bool)
    requires
        0 <= i <= frames.len(),
    ensures
        forall|j: int|
            i <= j < frames.len() && !(#[trigger] frames[j]).vendor ==> fold_items(
                frames,
                i,
                keep,
                pin,
            ).contains(FoldItem::Frame(j)),
        kept_count(fold_items(frames, i, keep, pin)) + omitted_count(
            fold_items(frames, i, keep, pin),
        ) == frames.len() - i,
        frames_ordered(fold_items(frames, i, keep, pin), i, frames.len() as int),
    decreases frames.len() - i,
{
    if i < frames.len() {
        let items = fold_items(frames, i, keep, pin);
        if !frames[i].vendor {
            let rest = fold_items(frames, i + 1, keep, pin);
            lemma_fold_items_from(frames, i + 1, keep, pin);
            assert(items == seq![FoldItem::Frame(i)] + rest);
            lemma_counts_add(seq![FoldItem::Frame(i)], rest);
            assert(seq![FoldItem::Frame(i)].drop_first() =~= Seq::<FoldItem>::empty());
            assert(seq![FoldItem::Frame(i)][0] == FoldItem::Frame(i));
            assert(kept_count(Seq::<FoldItem>::empty()) == 0);
            assert(omitted_count(Seq::<FoldItem>::empty()) == 0);
            assert(kept_count(seq![FoldItem::Frame(i)]) == 1);
            assert(omitted_count(seq![FoldItem::Frame(i)]) == 0);
            lemma_ordered_add(seq![FoldItem::Frame(i)], rest, i, i + 1, frames.len() as int);
            assert forall|j: int|
                i <= j < frames.len() && !(#[trigger] frames[j]).vendor implies items.contains(
                FoldItem::Frame(j),
            ) by {
                if j == i {
                    assert(items[0] == FoldItem::Frame(i));
                } else {
                    let x = choose|x: int| 0 <= x < rest.len() && rest[x] == FoldItem::Frame(j);
                    assert(items[x + 1] == rest[x]);
                }
            }
        } else {
            lemma_run_end(frames, i);
            let end = run_end(frames, i);
            let pinned: nat = if i == 0 && pin {
                1
            } else {
                0
            };
            let head = run_items(i, end, keep, pinned);
            let rest = fold_items(frames, end, keep, pin);
            lemma_fold_items_from(frames, end, keep, pin);
            assert(items == head + rest);
            lemma_counts_add(head, rest);
            let n = end - i;
            if n <= keep + pinned {
                lemma_range_counts(i, end);
                lemma_range_ordered(i, end);
            } else {
                let pre: Seq<FoldItem> = if pinned == 1 {
                    seq![FoldItem::Frame(i)]
                } else {
                    Seq::empty()
                };
                let mark = seq![FoldItem::Omitted((n - keep - pinned) as nat)];
                let tail = frames_range(end - keep, end);
                assert(head == pre + mark + tail);
                lemma_counts_add(pre + mark, tail);
                lemma_counts_add(pre, mark);
                lemma_range_counts(end - keep, end);
                assert(mark.drop_first() =~= Seq::<FoldItem>::empty());
                assert(mark[0] == FoldItem::Omitted((n - keep - pinned) as nat));
                assert(kept_count(Seq::<FoldItem>::empty()) == 0);
                assert(omitted_count(Seq::<FoldItem>::empty()) == 0);
                assert(kept_count(mark) == 0);
                assert(omitted_count(mark) == n - keep - pinned);
                if pinned == 1 {
                    assert(pre.drop_first() =~= Seq::<FoldItem>::empty());
                    assert(pre[0] == FoldItem::Frame(i));
                    assert(kept_count(pre) == 1);
                    assert(omitted_count(pre) == 0);
                } else {
                    assert(kept_count(pre) == 0);
                    assert(omitted_count(pre) == 0);
                }
                lemma_ordered_add(pre, mark, i, i + 1, end - keep);
                lemma_range_ordered(end - keep, end);
                lemma_ordered_add(pre + mark, tail, i, end - keep, end);
            }
            lemma_ordered_add(head, rest, i, end, frames.len() as int);
            assert forall|j: int|
                i <= j < frames.len() && !(#[trigger] frames[j]).vendor implies items.contains(
                FoldItem::Frame(j),
            ) by {
                assert(j >= end);
                let x = choose|x: int| 0 <= x < rest.len() && rest[x] == FoldItem::Frame(j);
                assert(items[head.len() + x] == rest[x]);
            }
        }
    }
}

proof fn lemma_run_items_ordered(i: int, end: int, keep: nat, pinned: nat)
    requires
        i < end,
        pinned <= 1,
    ensures
        frames_ordered(run_items(i, end, keep, pinned), i, end),
{
    let n = end - i;
    if n <= keep + pinned {
        lemma_range_ordered(i, end);
    } else {
        let pre = if pinned == 1 {
            seq![FoldItem::Frame(i)]
        } else {
            Seq::<FoldItem>::empty()
        };
        let mark = seq![FoldItem::Omitted((n - keep - pinned) as nat)];
        if pinned == 1 {
            assert(pre =~= frames_range(i, i + 1));
            lemma_range_ordered(i, i + 1);
        }
        assert(frames_ordered(pre, i, i + 1));
        assert(frames_ordered(mark, i + 1, end - keep));
        lemma_ordered_add(pre, mark, i, i + 1, end - keep);
        lemma_range_ordered(end - keep, end);
        lemma_ordered_add(pre + mark, frames_range(end - keep, end), i, end - keep, end);
    }
}

/// The folded shape from `i` reaches the vendor run that starts at `a`: it
/// is some items of frames before `a`, then the folded shape from `a`.
proof fn lemma_fold_reaches(frames: Seq<FrameModel>, i: int, a: int, keep: nat, pin: bool) -> (x: Seq<FoldItem>)
    requires
        0 <= i <= a <= frames.len(),
        a == 0 || !frames[a - 1].vendor,
    ensures
        fold_items(frames, i, keep, pin) == x + fold_items(frames, a, keep, pin),
        frames_ordered(x, i, a),
    decreases a - i,
{
    if i == a {
        assert(fold_items(frames, i, keep, pin) =~= Seq::<FoldItem>::empty() + fold_items(
            frames,
            a,
            keep,
            pin,
        ));
        Seq::<FoldItem>::empty()
    } else if !frames[i].vendor {
        let x1 = lemma_fold_reaches(frames, i + 1, a, keep, pin);
        let one = seq![FoldItem::Frame(i)];
        assert(one =~= frames_range(i, i + 1));
        lemma_range_ordered(i, i + 1);
        lemma_ordered_add(one, x1, i, i + 1, a);
        assert(fold_items(frames, i, keep, pin) =~= (one + x1) + fold_items(frames, a, keep, pin));
        one + x1
    } else {
        lemma_run_end(frames, i);
        let e = run_end(frames, i);
        assert(e <= a - 1) by {
            if e > a - 1 {
                assert(frames[a - 1].vendor);
            }
        }
        lemma_run_end(frames, i + 1);
        let pinned: nat = if i == 0 && pin {
            1
        } else {
            0
        };
        let x1 = lemma_fold_reaches(frames, e, a, keep, pin);
        let head = run_items(i, e, keep, pinned);
        assert(i < e);
        lemma_run_items_ordered(i, e, keep, pinned);
        lemma_ordered_add(head, x1, i, e, a);
        assert(fold_items(frames, i, keep, pin) =~= (head + x1) + fold_items(frames, a, keep, pin));
        head + x1
    }
}

/// A folded vendor run keeps the frames closest to the failure. For every
/// whole vendor run `a..b`: when it holds no more than `keep` frames (plus
/// the pinned outermost frame of a trace), all of it is kept; otherwise
/// exactly its last `keep` frames are kept (and the pinned one), a single
/// marker counts the rest, and every other frame of the run is gone.
pub proof fn lemma_fold_keeps_deepest_vendor_frames(
    frames: Seq<FrameModel>,
    keep: nat,
    pin: bool,
    a: int,
    b: int,
)
    requires
        0 <= a < b <= frames.len(),
        a == 0 || !frames[a - 1].vendor,
        forall|j: int| a <= j < b ==> (#[trigger] frames[j]).vendor,
        b == frames.len() || !frames[b].vendor,
    ensures
        ({
            let items = fold_items(frames, 0, keep, pin);
            let pinned: int = if a == 0 && pin {
                1
            } else {
                0
            };
            &&& b - a <= keep + pinned ==> forall|j: int|
                a <= j < b ==> #[trigger] items.contains(FoldItem::Frame(j))
            &&& b - a > keep + pinned ==> {
                &&& forall|j: int| b - keep <= j < b ==> #[trigger] items.contains(FoldItem::Frame(j))
                &&& forall|j: int|
                    a + pinned <= j < b - keep ==> !#[trigger] items.contains(FoldItem::Frame(j))
                &&& pinned == 1 ==> items.contains(FoldItem::Frame(a))
                &&& items.contains(FoldItem::Omitted((b - a - keep - pinned) as nat))
            }
        }),
{
    let items = fold_items(frames, 0, keep, pin);
    let pinned: nat = if a == 0 && pin {
        1
    } else {
        0
    };
    let x = lemma_fold_reaches(frames, 0, a, keep, pin);
    lemma_run_end(frames, a);
    let e = run_end(frames, a);
    assert(e == b) by {
        if e < b {
            assert(frames[e].vendor);
        }
        if e > b {
            assert(frames[b].vendor);
        }
    }
    lemma_run_end(frames, a + 1);
    let r = run_items(a, b, keep, pinned);
    let rest = fold_items(frames, b, keep, pin);
    assert(fold_items(frames, a, keep, pin) == r + rest);
    lemma_fold_items_from(frames, b, keep, pin);
    assert(items == x + (r + rest));
    assert forall|k: int| 0 <= k < r.len() implies items.contains(#[trigger] r[k]) by {
        assert(items[x.len() + k] == r[k]);
    }
    let n = b - a;
    if n <= keep + pinned {
        assert forall|j: int| a <= j < b implies #[trigger] items.contains(FoldItem::Frame(j)) by {
            assert(r[j - a] == FoldItem::Frame(j));
        }
    } else {
        let pre = if pinned == 1 {
            seq![FoldItem::Frame(a)]
        } else {
            Seq::<FoldItem>::empty()
        };
        let mark = seq![FoldItem::Omitted((n - keep - pinned) as nat)];
        let tail = frames_range(b - keep, b);
        assert(r == pre + mark + tail);
        assert forall|j: int| b - keep <= j < b implies #[trigger] items.contains(FoldItem::Frame(j)) by {
            assert(r[pre.len() + 1 + (j - (b - keep))] == FoldItem::Frame(j));
        }
        if pinned == 1 {
            assert(r[0] == FoldItem::Frame(a));
        }
        assert(r[pre.len() as int] == FoldItem::Omitted((n - keep - pinned) as nat));
        assert forall|j: int| a + pinned <= j < b - keep implies !#[trigger] items.contains(
            FoldItem::Frame(j),
        ) by {
            if items.contains(FoldItem::Frame(j)) {
                let k = choose|k: int| 0 <= k < items.len() && items[k] == FoldItem::Frame(j);
                if k < x.len() {
                    assert(items[k] == x[k]);
                } else if k < x.len() + r.len() {
                    let m = k - x.len();
                    assert(items[k] == r[m]);
                    if m < pre.len() {
                        assert(r[m] == pre[m]);
                    } else if m == pre.len() {
                        assert(r[m] == mark[0]);
                    } else {
                        assert(r[m] == tail[m - pre.len() - 1]);
                    }
                } else {
                    assert(items[k] == rest[k - x.len() - r.len()]);
                }
            }
        }
    }
}

/// Folding keeps every user frame whole, keeps the frames in their original
/// order, and accounts for every frame exactly once: the frames kept plus the
/// frames the markers report as omitted add up to the frames collected.
pub proof fn lemma_fold_keeps_user_frames(frames: Seq<FrameModel>, keep: nat, pin: bool)
    ensures
        forall|j: int|
            0 <= j < frames.len() && !(#[trigger] frames[j]).vendor ==> fold_items(
                frames,
                0,
                keep,
                pin,
            ).contains(FoldItem::Frame(j)),
        kept_count(fold_items(frames, 0, keep, pin)) + omitted_count(
            fold_items(frames, 0, keep, pin),
        ) == frames.len(),
        frames_ordered(fold_items(frames, 0, keep, pin), 0, frames.len() as int),
{
    lemma_fold_items_from(frames, 0, keep, pin);
}

/// The model of one frame of a trace being collected.
pub open spec fn frame_model(lines: Seq<String>, vendor: bool) -> FrameModel {
    FrameModel { lines: lines_view(lines), vendor }
}

struct Frame {
    lines: Vec<String>,
    vendor: bool,
}

spec fn frames_view(v: Seq<Frame>) -> Seq<FrameModel> {
    v.map_values(|f: Frame| frame_model(f.lines@, f.vendor))
}

proof fn lemma_run_end_is(frames: Seq<FrameModel>, i: int, j: int)
    requires
        0 <= i <= j <= frames.len(),
        forall|t: int| i <= t < j ==> (#[trigger] frames[t]).vendor,
        j == frames.len() || !frames[j].vendor,
    ensures
        run_end(frames, i) == j,
    decreases j - i,
{
    if i < j {
        lemma_run_end_is(frames, i + 1, j);
    }
}

/// `[... N vendor frames omitted ...]`
fn omitted_line(n: usize) -> (s: String)
    ensures
        s@ == omitted_marker(n as nat),
{
    let mut v: Vec<char> = Vec::new();
    push_str(&mut v, "[... ");
    push_decimal(&mut v, n);
    push_str(&mut v, " vendor frames omitted ...]");
    proof {
        assert(v@ =~= omitted_marker(n as nat));
    }
    string_of(v.as_slice())
}

/// Appends the lines of frames `a..b`.
fn push_frames_range(out: &mut Vec<String>, frames: &Vec<Frame>, a: usize, b: usize)
    requires
        a <= b <= frames@.len(),
    ensures
        lines_view(final(out)@) == lines_view(old(out)@) + render_items(
            frames_view(frames@),
            frames_range(a as int, b as int),
        ),
{
    let ghost fv = frames_view(frames@);
    let ghost base = lines_view(out@);
    let mut f = a;
    proof {
        assert(frames_range(a as int, a as int) =~= Seq::<FoldItem>::empty());
        assert(render_items(fv, Seq::<FoldItem>::empty()) =~= Seq::<Seq<char>>::empty());
    }
    while f < b
        invariant
            a <= f <= b <= frames@.len(),
            fv == frames_view(frames@),
            lines_view(out@) == base + render_items(fv, frames_range(a as int, f as int)),
        decreases b - f,
    {
        push_lines(out, &frames[f].lines);
        proof {
            assert(frames_range(a as int, f + 1) =~= frames_range(a as int, f as int).push(
                FoldItem::Frame(f as int),
            ));
            lemma_render_push(fv, frames_range(a as int, f as int), FoldItem::Frame(f as int));
            assert(fv[f as int].lines == lines_view(frames@[f as int].lines@));
        }
        f = f + 1;
    }
}

/// Keep every user frame, the outermost frame, and the `keep` deepest frames
/// of each vendor run; replace the rest with a single marker line.
#[verifier::rlimit(60)]
fn fold(frames: &Vec<Frame>, keep: usize, pin_first: bool) -> (out: Vec<String>)
    ensures
        lines_view(out@) == fold_spec(frames_view(frames@), keep as nat, pin_first),
{
    let ghost fv = frames_view(frames@);
    let ghost k = keep as nat;
    let total = frames.len();
    let mut out: Vec<String> = Vec::new();
    let mut idx: usize = 0;
    proof {
        assert(lines_view(out@) =~= Seq::<Seq<char>>::empty());
    }
    while idx < total
        invariant
            total == frames@.len() == fv.len(),
            fv == frames_view(frames@),
            k == keep as nat,
            idx <= total,
            fold_spec(fv, k, pin_first) == lines_view(out@) + render_items(
                fv,
                fold_items(fv, idx as int, k, pin_first),
            ),
        decreases total - idx,
    {
        if !frames[idx].vendor {
            let ghost before = lines_view(out@);
            push_lines(&mut out, &frames[idx].lines);
            proof {
                let one = seq![FoldItem::Frame(idx as int)];
                let rest = fold_items(fv, idx + 1, k, pin_first);
                assert(fold_items(fv, idx as int, k, pin_first) == one + rest);
                lemma_render_add(fv, one, rest);
                lemma_render_push(fv, Seq::<FoldItem>::empty(), FoldItem::Frame(idx as int));
                assert(Seq::<FoldItem>::empty().push(FoldItem::Frame(idx as int)) =~= one);
                assert(render_items(fv, Seq::<FoldItem>::empty()) =~= Seq::<Seq<char>>::empty());
                assert(render_items(fv, one) =~= fv[idx as int].lines);
                assert(lines_view(out@) =~= before + fv[idx as int].lines);
            }
            idx = idx + 1;
        } else {
            let start = idx;
            while idx < total && frames[idx].vendor
                invariant
                    start < total,
                    start <= idx <= total,
                    total == frames@.len() == fv.len(),
                    fv == frames_view(frames@),
                    forall|t: int| start <= t < idx ==> (#[trigger] fv[t]).vendor,
                decreases total - idx,
            {
                idx = idx + 1;
            }
            proof {
                lemma_run_end_is(fv, start as int, idx as int);
            }
            let run_len = idx - start;
            let pinned: usize = if start == 0 && pin_first {
                1
            } else {
                0
            };
            let ghost before = lines_view(out@);
            if run_len - pinned <= keep {
                push_frames_range(&mut out, frames, start, idx);
            } else {
                if pinned == 1 {
                    push_lines(&mut out, &frames[start].lines);
                }
                let ghost mid = lines_view(out@);
                let marker = omitted_line(run_len - keep - pinned);
                out.push(marker);
                proof {
                    assert(lines_view(out@) =~= mid.push(marker@));
                }
                push_frames_range(&mut out, frames, idx - keep, idx);
                proof {
                    let pre: Seq<FoldItem> = if pinned == 1 {
                        seq![FoldItem::Frame(start as int)]
                    } else {
                        Seq::empty()
                    };
                    let mark = seq![FoldItem::Omitted((run_len - keep - pinned) as nat)];
                    let tail = frames_range(idx - keep, idx as int);
                    lemma_render_add(fv, pre + mark, tail);
                    lemma_render_add(fv, pre, mark);
                    lemma_render_push(fv, Seq::<FoldItem>::empty(), mark[0]);
                    assert(Seq::<FoldItem>::empty().push(mark[0]) =~= mark);
                    assert(render_items(fv, Seq::<FoldItem>::empty())
                        =~= Seq::<Seq<char>>::empty());
                    if pinned == 1 {
                        lemma_render_push(fv, Seq::<FoldItem>::empty(), pre[0]);
                        assert(Seq::<FoldItem>::empty().push(pre[0]) =~= pre);
                        assert(render_items(fv, pre) =~= fv[start as int].lines);
                    }
                    assert(render_items(fv, mark) =~= seq![omitted_marker(
                        (run_len - keep - pinned) as nat,
                    )]);
                    assert(lines_view(out@) =~= before + render_items(
                        fv,
                        run_items(start as int, idx as int, k, pinned as nat),
                    ));
                }
            }
            proof {
                let head = run_items(start as int, idx as int, k, pinned as nat);
                let rest = fold_items(fv, idx as int, k, pin_first);
                assert(fold_items(fv, start as int, k, pin_first) == head + rest);
                lemma_render_add(fv, head, rest);
            }
        }
    }
    proof {
        assert(fold_items(fv, total as int, k, pin_first) =~= Seq::<FoldItem>::empty());
        assert(render_items(fv, Seq::<FoldItem>::empty()) =~= Seq::<Seq<char>>::empty());
        assert(lines_view(out@) + Seq::<Seq<char>>::empty() =~= lines_view(out@));
    }
    out
}

// ---------------------------------------------------------------------------
// The folder
// ---------------------------------------------------------------------------

/// Most summary lines worth carrying into `<error_summary>`.
pub const MAX_SUMMARY: usize = 8;

/// Which trace dialect is being collected.
#[derive(Debug, Clone, Copy, PartialEq, Eq, Structural)]
pub enum Mode {
    Idle,
    Python,
    Pytest,
    Js,
    Rust,
}

/// The state of a [`StackFolder`].
pub struct StackModel {
    pub mode: Mode,
    /// Lines of the trace before its first frame.
    pub header: Seq<Seq<char>>,
    pub frames: Seq<FrameModel>,
    pub keep_frames: nat,
    /// Whether frame 0 of the current dialect is pinned.
    pub pin_first: bool,
    pub summary: Seq<Seq<char>>,
    /// The last line passed through outside a trace.
    pub prev: Seq<char>,
}

/// Python and pytest list the outermost frame first, so frame 0 is the entry
/// point; JavaScript lists the throw site first. Both are worth keeping. A
/// Rust backtrace starts at `rust_begin_unwind`, which is not.
pub open spec fn pins_first(mode: Mode) -> bool {
    mode == Mode::Python || mode == Mode::Pytest || mode == Mode::Js
}

pub open spec fn start_spec(st: StackModel, mode: Mode, header: Option<Seq<char>>) -> StackModel {
    StackModel {
        mode,
        pin_first: pins_first(mode),
        header: match header {
            Some(h) => seq![h],
            None => Seq::empty(),
        },
        frames: Seq::empty(),
        ..st
    }
}

pub open spec fn push_frame_spec(st: StackModel, line: Seq<char>, path: Seq<char>) -> StackModel {
    StackModel {
        frames: st.frames.push(FrameModel { lines: seq![line], vendor: is_vendor(path) }),
        ..st
    }
}

/// A continuation line joins the last frame, or the header before any frame.
pub open spec fn append_spec(st: StackModel, line: Seq<char>) -> StackModel {
    if st.frames.len() > 0 {
        let last = st.frames.last();
        StackModel {
            frames: st.frames.update(
                st.frames.len() - 1,
                FrameModel { lines: last.lines.push(line), vendor: last.vendor },
            ),
            ..st
        }
    } else {
        StackModel { header: st.header.push(line), ..st }
    }
}

/// An `at` line under a Rust frame also makes the frame vendor code when its
/// path is.
pub open spec fn append_at_spec(st: StackModel, line: Seq<char>) -> StackModel {
    if st.frames.len() > 0 {
        let last = st.frames.last();
        StackModel {
            frames: st.frames.update(
                st.frames.len() - 1,
                FrameModel { lines: last.lines.push(line), vendor: last.vendor || is_vendor(line) },
            ),
            ..st
        }
    } else {
        StackModel { header: st.header.push(line), ..st }
    }
}

/// Lift an error line, trimmed, into the summary: at most [`MAX_SUMMARY`]
/// lines, each once.
pub open spec fn note_spec(st: StackModel, line: Seq<char>) -> StackModel {
    let t = trim(line);
    if t.len() == 0 || st.summary.len() >= MAX_SUMMARY {
        st
    } else if is_error_line(t) && !st.summary.contains(t) {
        StackModel { summary: st.summary.push(t), ..st }
    } else {
        st
    }
}

/// Emit the collected block with vendor runs folded, and go idle.
pub open spec fn flush_spec(st: StackModel) -> (StackModel, Seq<Seq<char>>) {
    (
        StackModel { mode: Mode::Idle, header: Seq::empty(), frames: Seq::empty(), ..st },
        st.header + fold_spec(st.frames, st.keep_frames, st.pin_first),
    )
}

/// Leave trace mode because `line` does not belong to the trace.
pub open spec fn close_spec(st: StackModel, line: Seq<char>) -> (StackModel, Seq<Seq<char>>) {
    let (s1, o1) = flush_spec(st);
    (StackModel { prev: line, ..note_spec(s1, line) }, o1.push(line))
}

/// A line that starts with a space character.
pub open spec fn indented(line: Seq<char>) -> bool {
    line.len() > 0 && is_space(line[0])
}

pub open spec fn idle_spec(st: StackModel, line: Seq<char>) -> (StackModel, Seq<Seq<char>>) {
    let t = trim(line);
    if has_at(t, 0, "Traceback (most recent call last)"@) {
        (start_spec(st, Mode::Python, Some(line)), Seq::empty())
    } else if t == "stack backtrace:"@ {
        (start_spec(st, Mode::Rust, Some(line)), Seq::empty())
    } else if pytest_frame(line) is Some {
        (
            push_frame_spec(
                start_spec(st, Mode::Pytest, None),
                line,
                line.take(pytest_frame(line)->0),
            ),
            Seq::empty(),
        )
    } else if js_frame(line) {
        let s1 = note_spec(StackModel { prev: Seq::empty(), ..st }, st.prev);
        (push_frame_spec(start_spec(s1, Mode::Js, None), line, line), Seq::empty())
    } else {
        (StackModel { prev: line, ..note_spec(st, line) }, seq![line])
    }
}

/// One input line.
pub open spec fn on_line_spec(st: StackModel, line: Seq<char>) -> (StackModel, Seq<Seq<char>>) {
    match st.mode {
        Mode::Idle => idle_spec(st, line),
        Mode::Python => {
            if py_frame(line) is Some {
                let (a, b) = py_frame(line)->0;
                (push_frame_spec(st, line, line.subrange(a, b)), Seq::empty())
            } else if all_space(line) || indented(line) {
                (append_spec(st, line), Seq::empty())
            } else {
                // Column-zero, non-empty: the exception line ends the trace.
                close_spec(st, line)
            }
        },
        Mode::Pytest => {
            if pytest_frame(line) is Some {
                (push_frame_spec(st, line, line.take(pytest_frame(line)->0)), Seq::empty())
            } else if has_at(line, 0, "E "@) {
                // An exception line is written at once, after the frames
                // before it; the trace goes on.
                let (s1, o1) = close_spec(st, line);
                (StackModel { mode: Mode::Pytest, ..s1 }, o1)
            } else if indented(line) {
                (append_spec(note_spec(st, line), line), Seq::empty())
            } else {
                close_spec(st, line)
            }
        },
        Mode::Js => {
            if js_frame(line) {
                (push_frame_spec(st, line, line), Seq::empty())
            } else {
                close_spec(st, line)
            }
        },
        Mode::Rust => {
            if rust_frame(line) {
                (push_frame_spec(st, line, line), Seq::empty())
            } else if rust_at(line) {
                (append_at_spec(st, line), Seq::empty())
            } else {
                close_spec(st, line)
            }
        },
    }
}

/// End of input: a trace still open is flushed, not lost.
pub open spec fn finish_spec(st: StackModel) -> (StackModel, Seq<Seq<char>>) {
    if st.mode != Mode::Idle {
        flush_spec(st)
    } else {
        (st, Seq::empty())
    }
}

/// Folds vendor frames out of stack traces.
pub struct StackFolder {
    mode: Mode,
    header: Vec<String>,
    frames: Vec<Frame>,
    keep_frames: usize,
    pin_first: bool,
    summary: Vec<String>,
    prev: String,
}

impl View for StackFolder {
    type V = StackModel;

    closed spec fn view(&self) -> StackModel {
        StackModel {
            mode: self.mode,
            header: lines_view(self.header@),
            frames: frames_view(self.frames@),
            keep_frames: self.keep_frames as nat,
            pin_first: self.pin_first,
            summary: lines_view(self.summary@),
            prev: self.prev@,
        }
    }
}

impl StackFolder {
    pub fn new(keep_frames: usize) -> (s: Self)
        ensures
            s@ == (StackModel {
                mode: Mode::Idle,
                header: Seq::empty(),
                frames: Seq::empty(),
                keep_frames: keep_frames as nat,
                pin_first: false,
                summary: Seq::empty(),
                prev: Seq::empty(),
            }),
    {
        let s = StackFolder {
            mode: Mode::Idle,
            header: Vec::new(),
            frames: Vec::new(),
            keep_frames,
            pin_first: false,
            summary: Vec::new(),
            prev: String::new(),
        };
        proof {
            assert(s@.header =~= Seq::<Seq<char>>::empty());
            assert(s@.frames =~= Seq::<FrameModel>::empty());
            assert(s@.summary =~= Seq::<Seq<char>>::empty());
        }
        s
    }

    fn start(&mut self, mode: Mode, header: Option<&str>)
        ensures
            final(self)@ == start_spec(
                old(self)@,
                mode,
                match header {
                    Some(h) => Some(h@),
                    None => None,
                },
            ),
    {
        self.mode = mode;
        self.pin_first = mode == Mode::Python || mode == Mode::Pytest || mode == Mode::Js;
        self.header = Vec::new();
        self.frames = Vec::new();
        if let Some(h) = header {
            self.header.push(h.to_owned());
        }
        proof {
            let hv = match header {
                Some(h) => Some(h@),
                None => None,
            };
            assert(self@.header =~= start_spec(old(self)@, mode, hv).header);
            assert(self@.frames =~= Seq::<FrameModel>::empty());
        }
    }

    fn push_frame(&mut self, line: &str, path: &Vec<char>)
        ensures
            final(self)@ == push_frame_spec(old(self)@, line@, path@),
    {
        let vendor = vendor_path(path);
        let mut lines: Vec<String> = Vec::new();
        lines.push(line.to_owned());
        self.frames.push(Frame { lines, vendor });
        proof {
            assert(lines_view(lines@) =~= seq![line@]);
            assert(self@.frames =~= push_frame_spec(old(self)@, line@, path@).frames);
        }
    }

    fn append_to_frame(&mut self, line: &str, at_line: bool)
        ensures
            final(self)@ == (if at_line {
                append_at_spec(old(self)@, line@)
            } else {
                append_spec(old(self)@, line@)
            }),
    {
        if self.frames.len() > 0 {
            let mut f = self.frames.pop().unwrap();
            f.lines.push(line.to_owned());
            if at_line {
                let v = chars_of(line);
                f.vendor = f.vendor || vendor_path(&v);
            }
            self.frames.push(f);
            proof {
                let want = if at_line {
                    append_at_spec(old(self)@, line@)
                } else {
                    append_spec(old(self)@, line@)
                };
                assert(lines_view(f.lines@) =~= old(self)@.frames.last().lines.push(line@));
                assert(self@.frames =~= want.frames);
            }
        } else {
            self.header.push(line.to_owned());
            proof {
                assert(self@.header =~= old(self)@.header.push(line@));
            }
        }
    }

    fn note_summary(&mut self, line: &Vec<char>)
        ensures
            final(self)@ == note_spec(old(self)@, line@),
    {
        let (a, b) = trim_bounds(line);
        if a == b || self.summary.len() >= MAX_SUMMARY {
            return;
        }
        let mut t: Vec<char> = Vec::new();
        push_range(&mut t, line, a, b);
        proof {
            assert(t@ =~= trim(line@));
        }
        if !error_line(&t) {
            return;
        }
        let ts = string_of(t.as_slice());
        let mut i: usize = 0;
        while i < self.summary.len()
            invariant
                i <= self.summary@.len(),
                ts@ == trim(line@),
                forall|j: int| 0 <= j < i ==> lines_view(self.summary@)[j] != ts@,
            decreases self.summary@.len() - i,
        {
            if self.summary[i] == ts {
                proof {
                    assert(lines_view(self.summary@)[i as int] == ts@);
                }
                return;
            }
            i = i + 1;
        }
        self.summary.push(ts);
        proof {
            assert(self@.summary =~= old(self)@.summary.push(trim(line@)));
        }
    }

    /// Emit the collected block with vendor runs folded.
    fn flush(&mut self, out: &mut Vec<String>)
        ensures
            final(self)@ == flush_spec(old(self)@).0,
            lines_view(final(out)@) == lines_view(old(out)@) + flush_spec(old(self)@).1,
    {
        let folded = fold(&self.frames, self.keep_frames, self.pin_first);
        let ghost before = lines_view(out@);
        push_lines(out, &self.header);
        push_lines(out, &folded);
        self.header = Vec::new();
        self.frames = Vec::new();
        self.mode = Mode::Idle;
        proof {
            assert(self@.header =~= Seq::<Seq<char>>::empty());
            assert(self@.frames =~= Seq::<FrameModel>::empty());
            assert(lines_view(out@) =~= before + flush_spec(old(self)@).1);
        }
    }

    /// Leave trace mode because `line` does not belong to the trace.
    fn close_with(&mut self, line: &str, v: &Vec<char>, out: &mut Vec<String>)
        requires
            v@ == line@,
        ensures
            final(self)@ == close_spec(old(self)@, line@).0,
            lines_view(final(out)@) == lines_view(old(out)@) + close_spec(old(self)@, line@).1,
    {
        self.flush(out);
        self.note_summary(v);
        let ghost before = lines_view(out@);
        out.push(line.to_owned());
        self.prev = line.to_owned();
        proof {
            assert(lines_view(out@) =~= before.push(line@));
        }
    }

    /// One input line; emits what [`on_line_spec`] says.
    pub fn on_line(&mut self, line: &str, out: &mut Vec<String>)
        ensures
            final(self)@ == on_line_spec(old(self)@, line@).0,
            lines_view(final(out)@) == lines_view(old(out)@) + on_line_spec(old(self)@, line@).1,
    {
        let v = chars_of(line);
        proof {
            reveal_strlit("E ");
            assert("E "@.len() == 2);
        }
        match self.mode {
            Mode::Idle => {
                let (a, b) = trim_bounds(&v);
                let mut t: Vec<char> = Vec::new();
                push_range(&mut t, &v, a, b);
                proof {
                    assert(t@ =~= trim(line@));
                }
                if at(&t, 0, "Traceback (most recent call last)") {
                    self.start(Mode::Python, Some(line));
                } else if equals(&t, "stack backtrace:") {
                    self.start(Mode::Rust, Some(line));
                } else if let Some(c) = match_pytest_frame(&v) {
                    let mut path: Vec<char> = Vec::new();
                    push_range(&mut path, &v, 0, c);
                    proof {
                        assert(path@ =~= line@.take(c as int));
                    }
                    self.start(Mode::Pytest, None);
                    self.push_frame(line, &path);
                } else if match_js_frame(&v) {
                    let prev = chars_of(self.prev.as_str());
                    self.prev = String::new();
                    self.note_summary(&prev);
                    self.start(Mode::Js, None);
                    self.push_frame(line, &v);
                } else {
                    self.note_summary(&v);
                    let ghost before = lines_view(out@);
                    out.push(line.to_owned());
                    self.prev = line.to_owned();
                    proof {
                        assert(lines_view(out@) =~= before + seq![line@]);
                    }
                }
            },
            Mode::Python => {
                if let Some((a, b)) = match_py_frame(&v) {
                    let mut path: Vec<char> = Vec::new();
                    push_range(&mut path, &v, a, b);
                    self.push_frame(line, &path);
                } else {
                    let (a, b) = trim_bounds(&v);
                    proof {
                        lemma_all_space_trim_empty(line@);
                    }
                    if a == b || (v.len() > 0 && space(v[0])) {
                        self.append_to_frame(line, false);
                    } else {
                        self.close_with(line, &v, out);
                    }
                }
            },
            Mode::Pytest => {
                if let Some(c) = match_pytest_frame(&v) {
                    let mut path: Vec<char> = Vec::new();
                    push_range(&mut path, &v, 0, c);
                    proof {
                        assert(path@ =~= line@.take(c as int));
                    }
                    self.push_frame(line, &path);
                } else if at(&v, 0, "E ") {
                    self.close_with(line, &v, out);
                    self.mode = Mode::Pytest;
                } else if v.len() > 0 && space(v[0]) {
                    self.note_summary(&v);
                    self.append_to_frame(line, false);
                } else {
                    self.close_with(line, &v, out);
                }
            },
            Mode::Js => {
                if match_js_frame(&v) {
                    self.push_frame(line, &v);
                } else {
                    self.close_with(line, &v, out);
                }
            },
            Mode::Rust => {
                if match_rust_frame(&v) {
                    self.push_frame(line, &v);
                } else if match_rust_at(&v) {
                    self.append_to_frame(line, true);
                } else {
                    self.close_with(line, &v, out);
                }
            },
        }
        proof {
            if lines_view(out@) == lines_view(old(out)@) {
                assert(lines_view(out@) =~= lines_view(old(out)@) + Seq::<Seq<char>>::empty());
            }
        }
    }

    /// End of input: flush a trace that is still open.
    pub fn finish(&mut self, out: &mut Vec<String>)
        ensures
            final(self)@ == finish_spec(old(self)@).0,
            lines_view(final(out)@) == lines_view(old(out)@) + finish_spec(old(self)@).1,
    {
        if self.mode != Mode::Idle {
            self.flush(out);
        } else {
            proof {
                assert(lines_view(out@) =~= lines_view(out@) + Seq::<Seq<char>>::empty());
            }
        }
    }

    /// The error lines lifted out of the traces seen so far.
    pub fn summary(&self) -> (r: Vec<String>)
        ensures
            lines_view(r@) == self@.summary,
    {
        self.summary.clone()
    }
}

impl crate::processors::LineProcessor for StackFolder {
    fn on_line(&mut self, line: &str, out: &mut Vec<String>)
        ensures
            final(self)@ == on_line_spec(old(self)@, line@).0,
            lines_view(final(out)@) == lines_view(old(out)@) + on_line_spec(old(self)@, line@).1,
    {
        StackFolder::on_line(self, line, out)
    }

    fn finish(&mut self, out: &mut Vec<String>)
        ensures
            final(self)@ == finish_spec(old(self)@).0,
            lines_view(final(out)@) == lines_view(old(out)@) + finish_spec(old(self)@).1,
    {
        StackFolder::finish(self, out)
    }

    fn name(&self) -> (n: &'static str)
        ensures
            n@ == "stacktrace"@,
    {
        "stacktrace"
    }

    fn summary(&self) -> (r: Vec<String>)
        ensures
            lines_view(r@) == self@.summary,
    {
        StackFolder::summary(self)
    }
}

// ---------------------------------------------------------------------------
// What every step keeps
// ---------------------------------------------------------------------------

/// The summary holds at most [`MAX_SUMMARY`] lines, each a trimmed error
/// line, none twice.
pub open spec fn summary_ok(summary: Seq<Seq<char>>) -> bool {
    &&& summary.len() <= MAX_SUMMARY
    &&& forall|i: int| 0 <= i < summary.len() ==> is_error_line(#[trigger] summary[i])
    &&& forall|i: int, j: int|
        0 <= i < j < summary.len() ==> #[trigger] summary[i] != #[trigger] summary[j]
}

proof fn lemma_note_keeps_summary(st: StackModel, line: Seq<char>)
    requires
        summary_ok(st.summary),
    ensures
        summary_ok(note_spec(st, line).summary),
{
    let t = trim(line);
    if !(t.len() == 0 || st.summary.len() >= MAX_SUMMARY) && is_error_line(t)
        && !st.summary.contains(t) {
        let s = st.summary.push(t);
        assert forall|i: int, j: int| 0 <= i < j < s.len() implies #[trigger] s[i] != #[trigger] s[j] by {
            if j == s.len() - 1 {
                assert(s[i] == st.summary[i]);
                assert(!st.summary.contains(t));
            }
        }
    }
}

/// Whatever lines come, the error summary never holds more than
/// [`MAX_SUMMARY`] lines, holds only error lines, and holds none twice.
pub proof fn lemma_summary_stays_bounded(st: StackModel, line: Seq<char>)
    requires
        summary_ok(st.summary),
    ensures
        summary_ok(on_line_spec(st, line).0.summary),
        summary_ok(finish_spec(st).0.summary),
{
    lemma_note_keeps_summary(st, line);
    lemma_note_keeps_summary(flush_spec(st).0, line);
    lemma_note_keeps_summary(StackModel { prev: Seq::empty(), ..st }, st.prev);
}

/// A marker that counts omitted vendor frames.
pub open spec fn is_marker(l: Seq<char>) -> bool {
    exists|n: nat| #[trigger] omitted_marker(n) == l
}

/// A line the stack folder may write when every line it takes satisfies
/// `ok`: such a line verbatim, or a marker.
pub open spec fn kept_or_marker(l: Seq<char>, ok: spec_fn(Seq<char>) -> bool) -> bool {
    ok(l) || is_marker(l)
}

pub open spec fn all_kept_or_marker(o: Seq<Seq<char>>, ok: spec_fn(Seq<char>) -> bool) -> bool {
    forall|k: int| 0 <= k < o.len() ==> kept_or_marker(#[trigger] o[k], ok)
}

/// Every line the folder holds back (header and frames) satisfies `ok`.
pub open spec fn held_ok(st: StackModel, ok: spec_fn(Seq<char>) -> bool) -> bool {
    &&& forall|k: int| 0 <= k < st.header.len() ==> ok(#[trigger] st.header[k])
    &&& forall|i: int, k: int|
        0 <= i < st.frames.len() && 0 <= k < st.frames[i].lines.len() ==> ok(
            #[trigger] st.frames[i].lines[k],
        )
}

proof fn lemma_kept_add(a: Seq<Seq<char>>, b: Seq<Seq<char>>, ok: spec_fn(Seq<char>) -> bool)
    requires
        all_kept_or_marker(a, ok),
        all_kept_or_marker(b, ok),
    ensures
        all_kept_or_marker(a + b, ok),
{
    assert forall|k: int| 0 <= k < (a + b).len() implies kept_or_marker(#[trigger] (a + b)[k], ok) by {
        if k < a.len() {
            assert((a + b)[k] == a[k]);
        } else {
            assert((a + b)[k] == b[k - a.len()]);
        }
    }
}

proof fn lemma_render_kept(
    frames: Seq<FrameModel>,
    items: Seq<FoldItem>,
    ok: spec_fn(Seq<char>) -> bool,
    lo: int,
    hi: int,
)
    requires
        0 <= lo,
        hi <= frames.len(),
        frames_ordered(items, lo, hi),
        forall|i: int, k: int|
            0 <= i < frames.len() && 0 <= k < frames[i].lines.len() ==> ok(
                #[trigger] frames[i].lines[k],
            ),
    ensures
        all_kept_or_marker(render_items(frames, items), ok),
    decreases items.len(),
{
    if items.len() > 0 {
        let rest = items.drop_first();
        assert(frames_ordered(rest, lo, hi)) by {
            assert forall|x: int| 0 <= x < rest.len() && rest[x] is Frame implies lo <= (
            #[trigger] rest[x])->Frame_0 < hi by {
                assert(rest[x] == items[x + 1]);
            }
            assert forall|x: int, y: int|
                0 <= x < y < rest.len() && rest[x] is Frame && rest[y] is Frame implies (
            #[trigger] rest[x])->Frame_0 < (#[trigger] rest[y])->Frame_0 by {
                assert(rest[x] == items[x + 1]);
                assert(rest[y] == items[y + 1]);
            }
        }
        lemma_render_kept(frames, rest, ok, lo, hi);
        let head = item_lines(frames, items[0]);
        match items[0] {
            FoldItem::Frame(i) => {
                assert(lo <= i < hi);
                assert forall|k: int| 0 <= k < head.len() implies kept_or_marker(
                    #[trigger] head[k],
                    ok,
                ) by {
                    assert(head[k] == frames[i].lines[k]);
                }
            },
            FoldItem::Omitted(n) => {
                assert(head[0] == omitted_marker(n));
            },
        }
        lemma_kept_add(head, render_items(frames, rest), ok);
    }
}

proof fn lemma_flush_kept(st: StackModel, ok: spec_fn(Seq<char>) -> bool)
    requires
        held_ok(st, ok),
    ensures
        all_kept_or_marker(flush_spec(st).1, ok),
        held_ok(flush_spec(st).0, ok),
{
    lemma_fold_keeps_user_frames(st.frames, st.keep_frames, st.pin_first);
    lemma_render_kept(
        st.frames,
        fold_items(st.frames, 0, st.keep_frames, st.pin_first),
        ok,
        0,
        st.frames.len() as int,
    );
    assert forall|k: int| 0 <= k < st.header.len() implies kept_or_marker(
        #[trigger] st.header[k],
        ok,
    ) by {}
    lemma_kept_add(st.header, fold_spec(st.frames, st.keep_frames, st.pin_first), ok);
}

/// One step keeps the folder's output accounted for: when the lines it
/// holds and the new line satisfy `ok`, every line written (now, or at the
/// end of input) satisfies `ok` or is a marker.
pub proof fn lemma_step_kept(st: StackModel, line: Seq<char>, ok: spec_fn(Seq<char>) -> bool)
    requires
        held_ok(st, ok),
        ok(line),
    ensures
        held_ok(on_line_spec(st, line).0, ok),
        all_kept_or_marker(on_line_spec(st, line).1, ok),
        all_kept_or_marker(finish_spec(st).1, ok),
        held_ok(finish_spec(st).0, ok),
{
    lemma_flush_kept(st, ok);
    let (f0, fo) = flush_spec(st);
    assert(all_kept_or_marker(seq![line], ok)) by {
        assert(seq![line][0] == line);
    }
    lemma_kept_add(fo, seq![line], ok);
    assert(fo.push(line) =~= fo + seq![line]);
    let r = on_line_spec(st, line);
    let h = r.0;
    // Every new header line and frame line is `line`; the rest were held.
    assert forall|k: int| 0 <= k < h.header.len() implies ok(#[trigger] h.header[k]) by {
        if k < st.header.len() && h.header[k] == st.header[k] {
        } else {
            assert(h.header[k] == line);
        }
    }
    assert forall|i: int, k: int|
        0 <= i < h.frames.len() && 0 <= k < h.frames[i].lines.len() implies ok(
            #[trigger] h.frames[i].lines[k],
        ) by {
        if i < st.frames.len() && k < st.frames[i].lines.len() && h.frames[i].lines[k]
            == st.frames[i].lines[k] {
        } else {
            assert(h.frames[i].lines[k] == line);
        }
    }
    if r.1.len() == 1 && r.1[0] == line {
        assert(all_kept_or_marker(r.1, ok));
    }
}

/// The stack folder fed `lines` in order, before the end of input.
pub open spec fn stack_lines(st: StackModel, lines: Seq<Seq<char>>) -> (StackModel, Seq<Seq<char>>)
    decreases lines.len(),
{
    if lines.len() == 0 {
        (st, Seq::empty())
    } else {
        let (s1, o1) = stack_lines(st, lines.drop_last());
        let (s2, o2) = on_line_spec(s1, lines.last());
        (s2, o1 + o2)
    }
}

proof fn lemma_stack_lines_kept(st: StackModel, lines: Seq<Seq<char>>, ok: spec_fn(Seq<char>) -> bool)
    requires
        held_ok(st, ok),
        forall|i: int| 0 <= i < lines.len() ==> ok(#[trigger] lines[i]),
    ensures
        held_ok(stack_lines(st, lines).0, ok),
        all_kept_or_marker(stack_lines(st, lines).1, ok),
    decreases lines.len(),
{
    if lines.len() > 0 {
        let p = lines.drop_last();
        let l = lines.last();
        assert forall|i: int| 0 <= i < p.len() implies ok(#[trigger] p[i]) by {
            assert(p[i] == lines[i]);
        }
        assert(ok(lines[lines.len() - 1]));
        lemma_stack_lines_kept(st, p, ok);
        let (s1, o1) = stack_lines(st, p);
        lemma_step_kept(s1, l, ok);
        lemma_kept_add(o1, on_line_spec(s1, l).1, ok);
    }
}

/// Lines survive verbatim or are accounted for: whenever every line fed in
/// satisfies `ok` (say, "is one of the input lines"), every line the stack
/// folder writes satisfies it too, byte for byte, or is a marker that counts
/// the vendor frames it replaced.
pub proof fn lemma_trace_lines_are_input_lines(
    st: StackModel,
    lines: Seq<Seq<char>>,
    ok: spec_fn(Seq<char>) -> bool,
)
    requires
        held_ok(st, ok),
        forall|i: int| 0 <= i < lines.len() ==> ok(#[trigger] lines[i]),
    ensures
        all_kept_or_marker(
            stack_lines(st, lines).1 + finish_spec(stack_lines(st, lines).0).1,
            ok,
        ),
{
    lemma_stack_lines_kept(st, lines, ok);
    let (s1, o1) = stack_lines(st, lines);
    lemma_flush_kept(s1, ok);
    lemma_kept_add(o1, finish_spec(s1).1, ok);
}

/// A trace still open when the input ends is flushed, not lost: its header
/// and its folded frames are written at the end of input.
pub proof fn lemma_open_trace_is_flushed(st: StackModel)
    requires
        st.mode != Mode::Idle,
    ensures
        finish_spec(st).1 == st.header + fold_spec(st.frames, st.keep_frames, st.pin_first),
        finish_spec(st).0.mode == Mode::Idle,
{
}

// ---------------------------------------------------------------------------
// Order
// ---------------------------------------------------------------------------

/// The lines of the frames, in order.
pub open spec fn frame_lines(frames: Seq<FrameModel>) -> Seq<Seq<char>>
    decreases frames.len(),
{
    if frames.len() == 0 {
        Seq::empty()
    } else {
        frame_lines(frames.drop_last()) + frames.last().lines
    }
}

/// The lines the folder holds back, in the order they came.
pub open spec fn stack_pending(st: StackModel) -> Seq<Seq<char>> {
    st.header + frame_lines(st.frames)
}

/// Outside a trace nothing is held back.
pub open spec fn stack_inv(st: StackModel) -> bool {
    st.mode == Mode::Idle ==> st.header.len() == 0 && st.frames.len() == 0
}

pub proof fn lemma_frame_lines_add(a: Seq<FrameModel>, b: Seq<FrameModel>)
    ensures
        frame_lines(a + b) == frame_lines(a) + frame_lines(b),
    decreases b.len(),
{
    if b.len() == 0 {
        assert(a + b =~= a);
        assert(frame_lines(a) + frame_lines(b) =~= frame_lines(a));
    } else {
        assert((a + b).drop_last() =~= a + b.drop_last());
        lemma_frame_lines_add(a, b.drop_last());
        assert(frame_lines(a) + frame_lines(b.drop_last()) + b.last().lines =~= frame_lines(a) + (
        frame_lines(b.drop_last()) + b.last().lines));
    }
}

proof fn lemma_frame_lines_append(frames: Seq<FrameModel>, line: Seq<char>, vendor: bool)
    requires
        frames.len() > 0,
    ensures
        frame_lines(
            frames.update(
                frames.len() - 1,
                FrameModel { lines: frames.last().lines.push(line), vendor },
            ),
        ) == frame_lines(frames).push(line),
{
    let g = frames.update(
        frames.len() - 1,
        FrameModel { lines: frames.last().lines.push(line), vendor },
    );
    assert(g.drop_last() =~= frames.drop_last());
    assert(frame_lines(frames.drop_last()) + frames.last().lines.push(line) =~= (frame_lines(
        frames.drop_last(),
    ) + frames.last().lines).push(line));
}

proof fn lemma_frame_lines_push(frames: Seq<FrameModel>, f: FrameModel)
    ensures
        frame_lines(frames.push(f)) == frame_lines(frames) + f.lines,
{
    assert(frames.push(f).drop_last() =~= frames);
}

proof fn lemma_fold_in_order_from(frames: Seq<FrameModel>, items: Seq<FoldItem>, lo: int, hi: int)
    requires
        0 <= lo <= hi <= frames.len(),
        frames_ordered(items, lo, hi),
    ensures
        is_subseq(
            content_of(render_items(frames, items)),
            content_of(frame_lines(frames.subrange(lo, hi))),
        ),
    decreases items.len(),
{
    let whole = content_of(frame_lines(frames.subrange(lo, hi)));
    if items.len() == 0 {
        lemma_subseq_empty(whole);
    } else {
        let rest = items.drop_first();
        lemma_content_add(item_lines(frames, items[0]), render_items(frames, rest));
        match items[0] {
            FoldItem::Omitted(n) => {
                assert(frames_ordered(rest, lo, hi)) by {
                    assert forall|x: int| 0 <= x < rest.len() && rest[x] is Frame implies lo <= (
                    #[trigger] rest[x])->Frame_0 < hi by {
                        assert(rest[x] == items[x + 1]);
                    }
                    assert forall|x: int, y: int|
                        0 <= x < y < rest.len() && rest[x] is Frame && rest[y] is Frame implies (
                    #[trigger] rest[x])->Frame_0 < (#[trigger] rest[y])->Frame_0 by {
                        assert(rest[x] == items[x + 1]);
                        assert(rest[y] == items[y + 1]);
                    }
                }
                lemma_fold_in_order_from(frames, rest, lo, hi);
                let m = seq![omitted_marker(n)];
                assert(marker_line(omitted_marker(n)));
                assert forall|k: int| 0 <= k < m.len() implies marker_line(#[trigger] m[k]) by {
                    assert(m[k] == omitted_marker(n));
                }
                lemma_content_of_markers(m);
                assert(content_of(m) + content_of(render_items(frames, rest)) =~= content_of(
                    render_items(frames, rest),
                ));
            },
            FoldItem::Frame(i) => {
                assert(lo <= i < hi);
                assert(frames_ordered(rest, i + 1, hi)) by {
                    assert forall|x: int| 0 <= x < rest.len() && rest[x] is Frame implies i + 1 <= (
                    #[trigger] rest[x])->Frame_0 < hi by {
                        assert(rest[x] == items[x + 1]);
                        assert(items[0]->Frame_0 < items[x + 1]->Frame_0);
                    }
                    assert forall|x: int, y: int|
                        0 <= x < y < rest.len() && rest[x] is Frame && rest[y] is Frame implies (
                    #[trigger] rest[x])->Frame_0 < (#[trigger] rest[y])->Frame_0 by {
                        assert(rest[x] == items[x + 1]);
                        assert(rest[y] == items[y + 1]);
                    }
                }
                lemma_fold_in_order_from(frames, rest, i + 1, hi);
                let fl = frames[i].lines;
                lemma_subseq_refl(content_of(fl));
                let tail = content_of(frame_lines(frames.subrange(i + 1, hi)));
                lemma_subseq_concat(content_of(fl), content_of(fl), content_of(render_items(frames, rest)), tail);
                // frames[lo..hi] = frames[lo..i] + [frames[i]] + frames[i + 1..hi]
                let a = frames.subrange(lo, i);
                let b = frames.subrange(i + 1, hi);
                assert(frames.subrange(lo, hi) =~= a + (seq![frames[i]] + b));
                lemma_frame_lines_add(a, seq![frames[i]] + b);
                lemma_frame_lines_add(seq![frames[i]], b);
                assert(seq![frames[i]] =~= Seq::<FrameModel>::empty().push(frames[i]));
                lemma_frame_lines_push(Seq::<FrameModel>::empty(), frames[i]);
                assert(frame_lines(Seq::<FrameModel>::empty()) + fl =~= fl);
                lemma_content_add(frame_lines(a), fl + frame_lines(b));
                lemma_content_add(fl, frame_lines(b));
                lemma_subseq_widen(
                    content_of(fl) + content_of(render_items(frames, rest)),
                    content_of(frame_lines(a)),
                    content_of(fl) + tail,
                    Seq::empty(),
                );
                assert(content_of(frame_lines(a)) + (content_of(fl) + tail) + Seq::<Seq<char>>::empty()
                    =~= whole);
            },
        }
    }
}

/// Folding keeps order: the content lines of the folded trace are a
/// subsequence of the lines of its frames.
pub proof fn lemma_fold_in_order(frames: Seq<FrameModel>, keep: nat, pin: bool)
    ensures
        is_subseq(content_of(fold_spec(frames, keep, pin)), content_of(frame_lines(frames))),
{
    lemma_fold_keeps_user_frames(frames, keep, pin);
    lemma_fold_in_order_from(frames, fold_items(frames, 0, keep, pin), 0, frames.len() as int);
    assert(frames.subrange(0, frames.len() as int) =~= frames);
}

proof fn lemma_flush_in_order(st: StackModel)
    ensures
        is_subseq(content_of(flush_spec(st).1), content_of(stack_pending(st))),
        stack_pending(flush_spec(st).0) == Seq::<Seq<char>>::empty(),
        flush_spec(st).0.mode == Mode::Idle,
{
    lemma_fold_in_order(st.frames, st.keep_frames, st.pin_first);
    lemma_subseq_refl(content_of(st.header));
    lemma_subseq_concat(
        content_of(st.header),
        content_of(st.header),
        content_of(fold_spec(st.frames, st.keep_frames, st.pin_first)),
        content_of(frame_lines(st.frames)),
    );
    lemma_content_add(st.header, fold_spec(st.frames, st.keep_frames, st.pin_first));
    lemma_content_add(st.header, frame_lines(st.frames));
    let e = flush_spec(st).0;
    assert(stack_pending(e) =~= Seq::<Seq<char>>::empty());
}

/// The order goal of one step, from `st` to `r`, writing `o`, on `line`.
pub open spec fn stack_step_ordered(st: StackModel, r: StackModel, o: Seq<Seq<char>>, line: Seq<char>) -> bool {
    is_subseq(
        content_of(o) + content_of(stack_pending(r)),
        content_of(stack_pending(st)) + content_of(seq![line]),
    )
}

proof fn lemma_hold_in_order(st: StackModel, r: StackModel, line: Seq<char>)
    requires
        stack_pending(r) == stack_pending(st) + seq![line],
    ensures
        stack_step_ordered(st, r, Seq::empty(), line),
{
    let p = stack_pending(st);
    lemma_content_add(p, seq![line]);
    assert(content_of(Seq::<Seq<char>>::empty()) =~= Seq::<Seq<char>>::empty());
    assert(content_of(Seq::<Seq<char>>::empty()) + content_of(p + seq![line]) =~= content_of(p)
        + content_of(seq![line]));
    lemma_subseq_refl(content_of(p) + content_of(seq![line]));
}

proof fn lemma_close_in_order(st: StackModel, line: Seq<char>)
    ensures
        stack_step_ordered(st, close_spec(st, line).0, close_spec(st, line).1, line),
        close_spec(st, line).0.mode == Mode::Idle,
        stack_pending(close_spec(st, line).0) == Seq::<Seq<char>>::empty(),
{
    let p = stack_pending(st);
    let one = seq![line];
    lemma_flush_in_order(st);
    let (f0, fo) = flush_spec(st);
    lemma_subseq_refl(content_of(one));
    lemma_subseq_concat(content_of(fo), content_of(p), content_of(one), content_of(one));
    assert(fo.push(line) =~= fo + one);
    lemma_content_add(fo, one);
    let r = close_spec(st, line).0;
    assert(stack_pending(r) =~= stack_pending(f0));
    assert(content_of(Seq::<Seq<char>>::empty()) =~= Seq::<Seq<char>>::empty());
    assert(content_of(fo + one) + content_of(stack_pending(r)) =~= content_of(fo) + content_of(one));
}

proof fn lemma_open_in_order(st: StackModel, r: StackModel, line: Seq<char>)
    requires
        stack_pending(st) == Seq::<Seq<char>>::empty(),
        stack_pending(r) == seq![line],
    ensures
        stack_step_ordered(st, r, Seq::empty(), line),
{
    lemma_hold_in_order(st, r, line);
    assert(Seq::<Seq<char>>::empty() + seq![line] =~= seq![line]);
}

proof fn lemma_push_frame_holds(st: StackModel, line: Seq<char>, path: Seq<char>)
    ensures
        stack_pending(push_frame_spec(st, line, path)) == stack_pending(st) + seq![line],
{
    let f = FrameModel { lines: seq![line], vendor: is_vendor(path) };
    lemma_frame_lines_push(st.frames, f);
    assert(st.header + (frame_lines(st.frames) + seq![line]) =~= st.header + frame_lines(st.frames)
        + seq![line]);
}

proof fn lemma_append_holds(st: StackModel, line: Seq<char>)
    ensures
        stack_pending(append_spec(st, line)) == stack_pending(st) + seq![line],
        stack_pending(append_at_spec(st, line)) == stack_pending(st) + seq![line],
{
    if st.frames.len() > 0 {
        lemma_frame_lines_append(st.frames, line, st.frames.last().vendor);
        lemma_frame_lines_append(st.frames, line, st.frames.last().vendor || is_vendor(line));
        assert(st.header + frame_lines(st.frames).push(line) =~= st.header + frame_lines(st.frames)
            + seq![line]);
    } else {
        assert(st.header.push(line) + frame_lines(st.frames) =~= st.header + frame_lines(st.frames)
            + seq![line]);
    }
}

/// One step keeps the stack folder in order: what it writes, followed by
/// the lines it still holds, is a subsequence of what it held before
/// followed by the new line, counting content lines only (not markers).
pub proof fn lemma_stack_step_in_order(st: StackModel, line: Seq<char>)
    requires
        stack_inv(st),
    ensures
        stack_inv(on_line_spec(st, line).0),
        stack_step_ordered(st, on_line_spec(st, line).0, on_line_spec(st, line).1, line),
        stack_inv(finish_spec(st).0),
        is_subseq(
            content_of(finish_spec(st).1) + content_of(stack_pending(finish_spec(st).0)),
            content_of(stack_pending(st)),
        ),
{
    let r = on_line_spec(st, line);
    lemma_close_in_order(st, line);
    lemma_append_holds(st, line);
    lemma_append_holds(note_spec(st, line), line);
    match st.mode {
        Mode::Idle => {
            assert(stack_pending(st) =~= Seq::<Seq<char>>::empty());
            let t = trim(line);
            if has_at(t, 0, "Traceback (most recent call last)"@) || t == "stack backtrace:"@ {
                assert(stack_pending(r.0) =~= seq![line]);
                lemma_open_in_order(st, r.0, line);
            } else if pytest_frame(line) is Some {
                let s0 = start_spec(st, Mode::Pytest, None);
                lemma_push_frame_holds(s0, line, line.take(pytest_frame(line)->0));
                assert(stack_pending(s0) =~= Seq::<Seq<char>>::empty());
                assert(Seq::<Seq<char>>::empty() + seq![line] =~= seq![line]);
                lemma_open_in_order(st, r.0, line);
            } else if js_frame(line) {
                let s1 = note_spec(StackModel { prev: Seq::empty(), ..st }, st.prev);
                let s0 = start_spec(s1, Mode::Js, None);
                lemma_push_frame_holds(s0, line, line);
                assert(stack_pending(s0) =~= Seq::<Seq<char>>::empty());
                assert(Seq::<Seq<char>>::empty() + seq![line] =~= seq![line]);
                lemma_open_in_order(st, r.0, line);
            } else {
                assert(stack_pending(r.0) =~= Seq::<Seq<char>>::empty());
                assert(r.1 == seq![line]);
                lemma_content_add(seq![line], Seq::empty());
                assert(content_of(Seq::<Seq<char>>::empty()) =~= Seq::<Seq<char>>::empty());
                assert(content_of(seq![line]) + content_of(Seq::<Seq<char>>::empty()) =~= content_of(
                    Seq::<Seq<char>>::empty(),
                ) + content_of(seq![line]));
                lemma_subseq_refl(content_of(seq![line]));
            }
        },
        Mode::Python => {
            if py_frame(line) is Some {
                let (a, b) = py_frame(line)->0;
                lemma_push_frame_holds(st, line, line.subrange(a, b));
                lemma_hold_in_order(st, r.0, line);
            } else if all_space(line) || indented(line) {
                lemma_hold_in_order(st, r.0, line);
            }
        },
        Mode::Pytest => {
            if pytest_frame(line) is Some {
                lemma_push_frame_holds(st, line, line.take(pytest_frame(line)->0));
                lemma_hold_in_order(st, r.0, line);
            } else if has_at(line, 0, "E "@) {
                lemma_close_in_order(st, line);
                assert(stack_pending(r.0) =~= stack_pending(close_spec(st, line).0));
            } else if indented(line) {
                assert(stack_pending(note_spec(st, line)) == stack_pending(st));
                lemma_hold_in_order(st, r.0, line);
            }
        },
        Mode::Js => {
            if js_frame(line) {
                lemma_push_frame_holds(st, line, line);
                lemma_hold_in_order(st, r.0, line);
            }
        },
        Mode::Rust => {
            if rust_frame(line) {
                lemma_push_frame_holds(st, line, line);
                lemma_hold_in_order(st, r.0, line);
            } else if rust_at(line) {
                lemma_hold_in_order(st, r.0, line);
            }
        },
    }
    // End of input.
    lemma_flush_in_order(st);
    let (f0, fo) = flush_spec(st);
    assert(content_of(Seq::<Seq<char>>::empty()) =~= Seq::<Seq<char>>::empty());
    assert(content_of(fo) + content_of(stack_pending(f0)) =~= content_of(fo));
    if st.mode == Mode::Idle {
        assert(stack_pending(st) =~= Seq::<Seq<char>>::empty());
        lemma_subseq_refl(Seq::<Seq<char>>::empty());
        assert(Seq::<Seq<char>>::empty() + Seq::<Seq<char>>::empty() =~= Seq::<Seq<char>>::empty());
    }
}

proof fn lemma_stack_lines_in_order(st: StackModel, lines: Seq<Seq<char>>)
    requires
        stack_inv(st),
    ensures
        stack_inv(stack_lines(st, lines).0),
        is_subseq(
            content_of(stack_lines(st, lines).1) + content_of(stack_pending(stack_lines(st, lines).0)),
            content_of(stack_pending(st)) + content_of(lines),
        ),
    decreases lines.len(),
{
    let e = Seq::<Seq<char>>::empty();
    if lines.len() == 0 {
        assert(content_of(e) =~= e);
        assert(e + content_of(stack_pending(st)) =~= content_of(stack_pending(st)) + e);
        lemma_subseq_refl(content_of(stack_pending(st)));
    } else {
        let p = lines.drop_last();
        let l = lines.last();
        lemma_stack_lines_in_order(st, p);
        let (s1, o1) = stack_lines(st, p);
        lemma_stack_step_in_order(s1, l);
        let (s2, o2) = on_line_spec(s1, l);
        let c1 = content_of(o1);
        let c2 = content_of(o2);
        let p1 = content_of(stack_pending(s1));
        let p2 = content_of(stack_pending(s2));
        let p0 = content_of(stack_pending(st));
        let ip = content_of(p);
        let cl = content_of(seq![l]);
        // c1 + c2 + p2 <= c1 + p1 + cl <= p0 + ip + cl
        lemma_subseq_refl(c1);
        lemma_subseq_concat(c1, c1, c2 + p2, p1 + cl);
        lemma_subseq_refl(cl);
        lemma_subseq_concat(c1 + p1, p0 + ip, cl, cl);
        assert(c1 + (p1 + cl) =~= c1 + p1 + cl);
        lemma_subseq_trans(c1 + (c2 + p2), c1 + p1 + cl, p0 + ip + cl);
        lemma_content_add(o1, o2);
        assert(p + seq![l] =~= lines);
        lemma_content_add(p, seq![l]);
        assert(c1 + (c2 + p2) =~= content_of(o1 + o2) + p2);
        assert(p0 + ip + cl =~= p0 + content_of(lines));
    }
}

/// The stack folder keeps the input order: fed lines from rest and flushed
/// at the end, the lines it writes, markers aside, are the input lines with
/// some left out and the rest in the order they came.
pub proof fn lemma_trace_keeps_input_order(st: StackModel, lines: Seq<Seq<char>>)
    requires
        st.mode == Mode::Idle,
        st.header.len() == 0,
        st.frames.len() == 0,
    ensures
        is_subseq(
            content_of(stack_lines(st, lines).1 + finish_spec(stack_lines(st, lines).0).1),
            content_of(lines),
        ),
{
    let e = Seq::<Seq<char>>::empty();
    assert(frame_lines(st.frames) =~= e);
    assert(stack_pending(st) =~= e);
    assert(content_of(e) =~= e);
    lemma_stack_lines_in_order(st, lines);
    let (s1, o1) = stack_lines(st, lines);
    lemma_stack_step_in_order(s1, Seq::<char>::empty());
    let f = finish_spec(s1);
    let c1 = content_of(o1);
    let p1 = content_of(stack_pending(s1));
    let cf = content_of(f.1);
    let pf = content_of(stack_pending(f.0));
    assert(e + content_of(lines) =~= content_of(lines));
    lemma_subseq_refl(c1);
    lemma_subseq_concat(c1, c1, cf + pf, p1);
    lemma_subseq_trans(c1 + (cf + pf), c1 + p1, content_of(lines));
    assert(c1 + (cf + pf) =~= c1 + cf + pf);
    lemma_subseq_prefix(c1 + cf, pf, content_of(lines));
    lemma_content_add(o1, f.1);
}

} // verus!
