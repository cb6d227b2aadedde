//! Unified-diff minimization.
//!
//! Three savings: untouched context beyond `context_lines` is dropped (hunks
//! are split and their `@@` headers recomputed so the result is still a valid
//! patch), generated files are replaced by a one-line summary, and `index`
//! blob-hash lines are removed.

use vstd::prelude::*;

use crate::processors::{content_of, lemma_content_add, lemma_content_of_markers, marker_line};
use crate::text::{
    at, chars_of, decimal, digit, has_at, is_ascii_digit, is_subseq, lemma_subseq_concat,
    lemma_subseq_empty, lemma_subseq_refl, lemma_subseq_trans, lemma_subseq_widen, lines_view,
    push_decimal, push_range, push_str, span, span_end, string_of, CharKind,
};

verus! {

// ---------------------------------------------------------------------------
// Line shapes
// ---------------------------------------------------------------------------

/// The value of the decimal digits `s`.
pub open spec fn digits_value(s: Seq<char>) -> nat
    decreases s.len(),
{
    if s.len() == 0 {
        0
    } else {
        digits_value(s.drop_last()) * 10 + ((s.last() as int) - 48) as nat
    }
}

/// Only the ASCII digits `0-9` between `a` and `b`.
pub open spec fn ascii_digits_between(s: Seq<char>, a: int, b: int) -> bool {
    forall|t: int| a <= t < b ==> is_ascii_digit(#[trigger] s[t])
}

/// A line-number field of a hunk header, read as a `usize`; a field that
/// does not read as one (too large, or digits beyond ASCII) reads as 1.
pub open spec fn number_field(s: Seq<char>, a: int, b: int) -> nat {
    let v = digits_value(s.subrange(a, b));
    if ascii_digits_between(s, a, b) && v <= usize::MAX {
        v
    } else {
        1
    }
}

/// Past an optional `,count` that starts at `p`.
pub open spec fn count_end(s: Seq<char>, p: int) -> int {
    if 0 <= p < s.len() && s[p] == ',' && span(s, p + 1, CharKind::Digit) > 0 {
        p + 1 + span(s, p + 1, CharKind::Digit)
    } else {
        p
    }
}

/// `@@ -12,7 +12,9 @@ fn handler()`: the old and new start lines.
///
/// Grammar: `@@ -`, digits, optional `,digits`, ` +`, digits, optional
/// `,digits`, ` @@`, then anything.
pub open spec fn hunk_header(s: Seq<char>) -> Option<(nat, nat)> {
    if !has_at(s, 0, "@@ -"@) {
        None
    } else {
        let e1 = 4 + span(s, 4, CharKind::Digit) as int;
        if e1 == 4 {
            None
        } else {
            let p = count_end(s, e1);
            if !has_at(s, p, " +"@) {
                None
            } else {
                let e3 = p + 2 + span(s, p + 2, CharKind::Digit);
                if e3 == p + 2 {
                    None
                } else {
                    let q = count_end(s, e3);
                    if !has_at(s, q, " @@"@) {
                        None
                    } else {
                        Some((number_field(s, 4, e1), number_field(s, p + 2, e3)))
                    }
                }
            }
        }
    }
}

/// No newline in `s[i..]`.
pub open spec fn no_newline_from(s: Seq<char>, i: int) -> bool {
    i + span(s, i, CharKind::Not('\n')) == s.len()
}

/// Where the ` b/` separator of a `diff --git` line sits, searching from `i`:
/// the first one that leaves a non-empty new path without newline, with no
/// newline in the old path either.
pub open spec fn git_split(s: Seq<char>, i: int) -> Option<int>
    decreases s.len() - i,
{
    if i < 14 || i + 3 >= s.len() {
        None
    } else if s[i - 1] == '\n' {
        None
    } else if has_at(s, i, " b/"@) && no_newline_from(s, i + 3) {
        Some(i)
    } else {
        git_split(s, i + 1)
    }
}

/// `diff --git a/src/main.rs b/src/main.rs`: the new path.
pub open spec fn diff_git(s: Seq<char>) -> Option<Seq<char>> {
    if has_at(s, 0, "diff --git a/"@) && git_split(s, 14) is Some {
        Some(s.skip(git_split(s, 14)->0 + 3))
    } else {
        None
    }
}

/// The kind of a hunk body line: its first character, a space when empty.
pub open spec fn line_kind(s: Seq<char>) -> char {
    if s.len() == 0 {
        ' '
    } else {
        s[0]
    }
}

fn parse_number(v: &Vec<char>, a: usize, b: usize) -> (r: usize)
    requires
        a <= b <= v@.len(),
    ensures
        r == number_field(v@, a as int, b as int),
{
    let mut j = a;
    while j < b
        invariant
            a <= j <= b <= v@.len(),
            forall|t: int| a <= t < j ==> is_ascii_digit(#[trigger] v@[t]),
        decreases b - j,
    {
        if !digit(v[j]) {
            return 1;
        }
        j = j + 1;
    }
    let mut value: Option<usize> = Some(0);
    let mut i = a;
    proof {
        assert(v@.subrange(a as int, a as int) =~= Seq::<char>::empty());
    }
    while i < b
        invariant
            a <= i <= b <= v@.len(),
            forall|t: int| a <= t < b ==> is_ascii_digit(#[trigger] v@[t]),
            value == (if digits_value(v@.subrange(a as int, i as int)) <= usize::MAX {
                Some(digits_value(v@.subrange(a as int, i as int)) as usize)
            } else {
                None::<usize>
            }),
        decreases b - i,
    {
        let d = (v[i] as u32 - 48) as usize;
        proof {
            let pre = v@.subrange(a as int, i as int);
            let nxt = v@.subrange(a as int, i + 1);
            assert(nxt.drop_last() =~= pre);
            assert(nxt.last() == v@[i as int]);
            assert(digits_value(nxt) == digits_value(pre) * 10 + d);
        }
        value = match value {
            Some(x) => match x.checked_mul(10) {
                Some(y) => y.checked_add(d),
                None => None,
            },
            None => None,
        };
        i = i + 1;
    }
    match value {
        Some(x) => x,
        None => 1,
    }
}

fn count_end_of(v: &Vec<char>, p: usize) -> (r: usize)
    requires
        p <= v@.len(),
    ensures
        r == count_end(v@, p as int),
        p <= r <= v@.len(),
{
    if p < v.len() && v[p] == ',' {
        let e = span_end(v, p + 1, CharKind::Digit);
        if e > p + 1 {
            return e;
        }
    }
    p
}

pub(crate) fn match_hunk_header(v: &Vec<char>) -> (r: Option<(usize, usize)>)
    ensures
        match r {
            Some((o, n)) => hunk_header(v@) == Some((o as nat, n as nat)),
            None => hunk_header(v@) is None,
        },
{
    proof {
        reveal_strlit("@@ -");
        reveal_strlit(" +");
        reveal_strlit(" @@");
        assert("@@ -"@.len() == 4);
        assert(" +"@.len() == 2);
    }
    if !at(v, 0, "@@ -") {
        return None;
    }
    let e1 = span_end(v, 4, CharKind::Digit);
    if e1 == 4 {
        return None;
    }
    let p = count_end_of(v, e1);
    if !at(v, p, " +") {
        return None;
    }
    let e3 = span_end(v, p + 2, CharKind::Digit);
    if e3 == p + 2 {
        return None;
    }
    let q = count_end_of(v, e3);
    if !at(v, q, " @@") {
        return None;
    }
    proof {
        crate::text::lemma_span_facts(v@, 4, CharKind::Digit);
        crate::text::lemma_span_facts(v@, p + 2, CharKind::Digit);
    }
    Some((parse_number(v, 4, e1), parse_number(v, p + 2, e3)))
}

fn match_diff_git(v: &Vec<char>) -> (r: Option<Vec<char>>)
    ensures
        match r {
            Some(p) => diff_git(v@) == Some(p@),
            None => diff_git(v@) is None,
        },
{
    proof {
        reveal_strlit("diff --git a/");
        reveal_strlit(" b/");
        assert("diff --git a/"@.len() == 13);
        assert(" b/"@.len() == 3);
    }
    if !at(v, 0, "diff --git a/") || v.len() <= 17 {
        return None;
    }
    let mut i: usize = 14;
    while i < v.len() - 3
        invariant
            14 <= i <= v@.len(),
            has_at(v@, 0, "diff --git a/"@),
            git_split(v@, 14) == git_split(v@, i as int),
        decreases v@.len() - i,
    {
        if v[i - 1] == '\n' {
            return None;
        }
        if at(v, i, " b/") && span_end(v, i + 3, CharKind::Not('\n')) == v.len() {
            let mut p: Vec<char> = Vec::new();
            push_range(&mut p, v, i + 3, v.len());
            proof {
                assert(p@ =~= v@.skip(i + 3));
                assert(no_newline_from(v@, i + 3));
                assert(git_split(v@, i as int) == Some(i as int));
            }
            return Some(p);
        }
        i = i + 1;
    }
    None
}

// ---------------------------------------------------------------------------
// Rendering a hunk
// ---------------------------------------------------------------------------

/// One buffered hunk body line.
pub struct HunkLineModel {
    pub kind: char,
    pub text: Seq<char>,
}

pub open spec fn is_change(l: HunkLineModel) -> bool {
    l.kind == '+' || l.kind == '-'
}

pub open spec fn on_old_side(l: HunkLineModel) -> bool {
    l.kind == ' ' || l.kind == '-'
}

pub open spec fn on_new_side(l: HunkLineModel) -> bool {
    l.kind == ' ' || l.kind == '+'
}

/// `a + 1`, saturating at `usize::MAX`.
pub open spec fn sat_inc(a: nat) -> nat {
    if a < usize::MAX {
        a + 1
    } else {
        a
    }
}

/// The old-file line number of body line `i`.
pub open spec fn old_line_no(body: Seq<HunkLineModel>, i: int, old_start: nat) -> nat
    decreases i,
{
    if i <= 0 {
        old_start
    } else if on_old_side(body[i - 1]) {
        sat_inc(old_line_no(body, i - 1, old_start))
    } else {
        old_line_no(body, i - 1, old_start)
    }
}

/// The new-file line number of body line `i`.
pub open spec fn new_line_no(body: Seq<HunkLineModel>, i: int, new_start: nat) -> nat
    decreases i,
{
    if i <= 0 {
        new_start
    } else if on_new_side(body[i - 1]) {
        sat_inc(new_line_no(body, i - 1, new_start))
    } else {
        new_line_no(body, i - 1, new_start)
    }
}

/// Add the region `s..e` around a change, merging it into the last region
/// when they touch or overlap.
pub open spec fn merge_range(acc: Seq<(int, int)>, s: int, e: int) -> Seq<(int, int)> {
    if acc.len() > 0 && s <= acc.last().1 {
        acc.update(
            acc.len() - 1,
            (
                acc.last().0,
                if acc.last().1 >= e {
                    acc.last().1
                } else {
                    e
                },
            ),
        )
    } else {
        acc.push((s, e))
    }
}

/// The regions kept around the changes among the first `i` body lines: up to
/// `ctx` lines either side of each change.
pub open spec fn keep_ranges(body: Seq<HunkLineModel>, ctx: nat, i: int) -> Seq<(int, int)>
    decreases i,
{
    if i <= 0 {
        Seq::empty()
    } else {
        let acc = keep_ranges(body, ctx, i - 1);
        let j = i - 1;
        if is_change(body[j]) {
            let s = if j >= ctx {
                j - ctx
            } else {
                0
            };
            let e = if j + ctx + 1 <= body.len() {
                j + ctx + 1
            } else {
                body.len() as int
            };
            merge_range(acc, s, e)
        } else {
            acc
        }
    }
}

pub open spec fn count_old(s: Seq<HunkLineModel>) -> nat
    decreases s.len(),
{
    if s.len() == 0 {
        0
    } else {
        count_old(s.drop_last()) + if on_old_side(s.last()) {
            1nat
        } else {
            0nat
        }
    }
}

pub open spec fn count_new(s: Seq<HunkLineModel>) -> nat
    decreases s.len(),
{
    if s.len() == 0 {
        0
    } else {
        count_new(s.drop_last()) + if on_new_side(s.last()) {
            1nat
        } else {
            0nat
        }
    }
}

/// `@@ -a,b +c,d @@`
pub open spec fn hunk_header_line(a: nat, b: nat, c: nat, d: nat) -> Seq<char> {
    "@@ -"@ + decimal(a) + ","@ + decimal(b) + " +"@ + decimal(c) + ","@ + decimal(d) + " @@"@
}

/// An empty side of a hunk is numbered by the line before it.
pub open spec fn begin_no(no: nat, count: nat) -> nat {
    if count == 0 {
        if no >= 1 {
            (no - 1) as nat
        } else {
            0
        }
    } else {
        no
    }
}

/// The kept region `s..e`, with a `\ No newline` marker that follows it
/// pulled in.
pub open spec fn region_end(body: Seq<HunkLineModel>, e: int) -> int {
    if e < body.len() && body[e].kind == '\\' {
        e + 1
    } else {
        e
    }
}

/// The lines of one kept region: its recomputed header and its body lines.
pub open spec fn render_region(
    body: Seq<HunkLineModel>,
    old_start: nat,
    new_start: nat,
    r: (int, int),
) -> Seq<Seq<char>> {
    let end = region_end(body, r.1);
    let slice = body.subrange(r.0, end);
    let oc = count_old(slice);
    let nc = count_new(slice);
    seq![
        hunk_header_line(
            begin_no(old_line_no(body, r.0, old_start), oc),
            oc,
            begin_no(new_line_no(body, r.0, new_start), nc),
            nc,
        ),
    ] + slice.map_values(|l: HunkLineModel| l.text)
}

pub open spec fn render_regions(
    body: Seq<HunkLineModel>,
    old_start: nat,
    new_start: nat,
    rs: Seq<(int, int)>,
) -> Seq<Seq<char>>
    decreases rs.len(),
{
    if rs.len() == 0 {
        Seq::empty()
    } else {
        render_regions(body, old_start, new_start, rs.drop_last()) + render_region(
            body,
            old_start,
            new_start,
            rs.last(),
        )
    }
}

/// The trimmed hunk: each region worth keeping as its own `@@` hunk with
/// recomputed line numbers. A hunk without changes renders to nothing.
pub open spec fn render_hunk_spec(
    body: Seq<HunkLineModel>,
    old_start: nat,
    new_start: nat,
    ctx: nat,
) -> Seq<Seq<char>> {
    render_regions(body, old_start, new_start, keep_ranges(body, ctx, body.len() as int))
}

/// Regions are well formed, ordered, and separated by at least one line.
pub open spec fn ranges_ok(rs: Seq<(int, int)>, n: int) -> bool {
    &&& forall|x: int| 0 <= x < rs.len() ==> 0 <= (#[trigger] rs[x]).0 < rs[x].1 <= n
    &&& forall|x: int| 0 <= x < rs.len() - 1 ==> (#[trigger] rs[x]).1 < rs[x + 1].0
}

/// Line `j` lies inside one of the regions.
pub open spec fn covered(rs: Seq<(int, int)>, j: int) -> bool {
    exists|x: int| 0 <= x < rs.len() && (#[trigger] rs[x]).0 <= j < rs[x].1
}

proof fn lemma_merge_range(acc: Seq<(int, int)>, s: int, e: int, j: int, n: int)
    requires
        ranges_ok(acc, n),
        0 <= s <= j < e <= n,
        acc.len() > 0 ==> acc.last().0 <= j,
    ensures
        ranges_ok(merge_range(acc, s, e), n),
        merge_range(acc, s, e).len() >= acc.len(),
        merge_range(acc, s, e).len() > 0,
        forall|x: int|
            0 <= x < acc.len() ==> (#[trigger] merge_range(acc, s, e)[x]).0 == acc[x].0
                && merge_range(acc, s, e)[x].1 >= acc[x].1,
        merge_range(acc, s, e).last().0 <= j < merge_range(acc, s, e).last().1,
{
    let m = merge_range(acc, s, e);
    if acc.len() > 0 && s <= acc.last().1 {
        assert forall|x: int| 0 <= x < m.len() - 1 implies (#[trigger] m[x]).1 < m[x + 1].0 by {
            assert(m[x] == acc[x]);
            assert(m[x + 1].0 == acc[x + 1].0);
        }
    } else {
        assert forall|x: int| 0 <= x < m.len() - 1 implies (#[trigger] m[x]).1 < m[x + 1].0 by {
            if x < acc.len() - 1 {
                assert(m[x] == acc[x]);
                assert(m[x + 1] == acc[x + 1]);
            } else {
                assert(m[x] == acc.last());
            }
        }
    }
}

/// The kept regions are ordered and disjoint.
proof fn lemma_keep_ranges_ok(body: Seq<HunkLineModel>, ctx: nat, i: int)
    requires
        0 <= i <= body.len(),
    ensures
        ranges_ok(keep_ranges(body, ctx, i), body.len() as int),
        keep_ranges(body, ctx, i).len() > 0 ==> keep_ranges(body, ctx, i).last().0 < i,
    decreases i,
{
    if i > 0 {
        lemma_keep_ranges_ok(body, ctx, i - 1);
        let acc = keep_ranges(body, ctx, i - 1);
        let j = i - 1;
        if is_change(body[j]) {
            let s = if j >= ctx {
                j - ctx
            } else {
                0
            };
            let e = if j + ctx + 1 <= body.len() {
                j + ctx + 1
            } else {
                body.len() as int
            };
            lemma_merge_range(acc, s, e, j, body.len() as int);
        }
    }
}

/// Every change among the first `i` body lines lies inside a kept region.
proof fn lemma_keep_ranges_cover(body: Seq<HunkLineModel>, ctx: nat, i: int, t: int)
    requires
        0 <= t < i <= body.len(),
        is_change(body[t]),
    ensures
        covered(keep_ranges(body, ctx, i), t),
    decreases i,
{
    lemma_keep_ranges_ok(body, ctx, i - 1);
    let acc = keep_ranges(body, ctx, i - 1);
    let res = keep_ranges(body, ctx, i);
    let j = i - 1;
    if t < j {
        lemma_keep_ranges_cover(body, ctx, i - 1, t);
    }
    if is_change(body[j]) {
        let s = if j >= ctx {
            j - ctx
        } else {
            0
        };
        let e = if j + ctx + 1 <= body.len() {
            j + ctx + 1
        } else {
            body.len() as int
        };
        lemma_merge_range(acc, s, e, j, body.len() as int);
        if t == j {
            assert(res[res.len() - 1].0 <= t < res[res.len() - 1].1);
        } else {
            let x = choose|x: int| 0 <= x < acc.len() && (#[trigger] acc[x]).0 <= t < acc[x].1;
            assert(res[x].0 <= t < res[x].1);
        }
    }
}

/// Trimming context never drops a change: every `+` and `-` line of the hunk
/// lies inside one of the kept regions, and the kept regions are ordered and
/// disjoint, so each kept line is emitted once and in its original order.
pub proof fn lemma_changes_survive(body: Seq<HunkLineModel>, ctx: nat)
    ensures
        ranges_ok(keep_ranges(body, ctx, body.len() as int), body.len() as int),
        forall|j: int|
            0 <= j < body.len() && is_change(#[trigger] body[j]) ==> covered(
                keep_ranges(body, ctx, body.len() as int),
                j,
            ),
{
    lemma_keep_ranges_ok(body, ctx, body.len() as int);
    assert forall|j: int| 0 <= j < body.len() && is_change(#[trigger] body[j]) implies covered(
        keep_ranges(body, ctx, body.len() as int),
        j,
    ) by {
        lemma_keep_ranges_cover(body, ctx, body.len() as int, j);
    }
}

/// Line `t` lies within `ctx` lines of a change.
pub open spec fn near_change(body: Seq<HunkLineModel>, ctx: nat, t: int) -> bool {
    exists|j: int| 0 <= j < body.len() && is_change(#[trigger] body[j]) && j - ctx <= t <= j + ctx
}

/// Every line of the regions among the first `i` body lines is near a change.
pub open spec fn regions_near(body: Seq<HunkLineModel>, ctx: nat, rs: Seq<(int, int)>) -> bool {
    forall|x: int, t: int|
        #![trigger rs[x], near_change(body, ctx, t)]
        0 <= x < rs.len() && rs[x].0 <= t < rs[x].1 ==> near_change(body, ctx, t)
}

proof fn lemma_keep_ranges_near(body: Seq<HunkLineModel>, ctx: nat, i: int)
    requires
        0 <= i <= body.len(),
    ensures
        regions_near(body, ctx, keep_ranges(body, ctx, i)),
    decreases i,
{
    if i > 0 {
        lemma_keep_ranges_near(body, ctx, i - 1);
        let acc = keep_ranges(body, ctx, i - 1);
        let j = i - 1;
        if is_change(body[j]) {
            let s = if j >= ctx {
                j - ctx
            } else {
                0
            };
            let e = if j + ctx + 1 <= body.len() {
                j + ctx + 1
            } else {
                body.len() as int
            };
            let m = merge_range(acc, s, e);
            assert forall|x: int, t: int|
                #![trigger m[x], near_change(body, ctx, t)]
                0 <= x < m.len() && m[x].0 <= t < m[x].1 implies near_change(body, ctx, t) by {
                if s <= t < e {
                    assert(is_change(body[j]) && j - ctx <= t <= j + ctx);
                } else if x < acc.len() {
                    if acc.len() > 0 && s <= acc.last().1 {
                        if x < acc.len() - 1 {
                            assert(m[x] == acc[x]);
                        } else {
                            assert(acc[x].0 <= t < acc[x].1);
                        }
                    } else {
                        assert(m[x] == acc[x]);
                    }
                    assert(acc[x].0 <= t < acc[x].1);
                }
            }
        }
    }
}

/// Only context near a change survives the trimming: every line of a kept
/// region lies within `ctx` lines of a `+` or `-` line.
pub proof fn lemma_only_nearby_context_survives(body: Seq<HunkLineModel>, ctx: nat)
    ensures
        regions_near(body, ctx, keep_ranges(body, ctx, body.len() as int)),
{
    lemma_keep_ranges_near(body, ctx, body.len() as int);
}

proof fn lemma_no_change_no_ranges(body: Seq<HunkLineModel>, ctx: nat, i: int)
    requires
        forall|j: int| 0 <= j < body.len() ==> !is_change(#[trigger] body[j]),
        i <= body.len(),
    ensures
        keep_ranges(body, ctx, i).len() == 0,
    decreases i,
{
    if i > 0 {
        lemma_no_change_no_ranges(body, ctx, i - 1);
    }
}

/// A hunk with no `+` or `-` line is written as nothing when it is flushed:
/// context-only hunks are dropped entirely.
pub proof fn lemma_context_only_hunks_vanish(st: DiffModel)
    requires
        forall|j: int| 0 <= j < st.body.len() ==> !is_change(#[trigger] st.body[j]),
    ensures
        flush_hunk_spec(st).1 == Seq::<Seq<char>>::empty(),
{
    lemma_no_change_no_ranges(st.body, st.context, st.body.len() as int);
}

/// The body lines of `s` that a side of the hunk reads: the old side reads
/// context and removed lines, the new side context and added lines.
pub open spec fn lines_of_kinds(s: Seq<HunkLineModel>, a: char, b: char) -> Seq<HunkLineModel> {
    s.filter(|l: HunkLineModel| l.kind == a || l.kind == b)
}

proof fn lemma_counts_are_side_lines(s: Seq<HunkLineModel>)
    ensures
        count_old(s) == lines_of_kinds(s, ' ', '-').len(),
        count_new(s) == lines_of_kinds(s, ' ', '+').len(),
    decreases s.len(),
{
    reveal(Seq::filter);
    if s.len() > 0 {
        lemma_counts_are_side_lines(s.drop_last());
    }
}

/// The old-side (new-side) line number of body line `i` is the hunk's
/// start plus the old-side (new-side) lines before it.
pub proof fn lemma_line_numbers_count_lines(body: Seq<HunkLineModel>, i: int, start: nat)
    requires
        0 <= i <= body.len(),
        start + body.len() < usize::MAX,
    ensures
        old_line_no(body, i, start) == start + lines_of_kinds(body.take(i), ' ', '-').len(),
        new_line_no(body, i, start) == start + lines_of_kinds(body.take(i), ' ', '+').len(),
    decreases i,
{
    reveal(Seq::filter);
    if i > 0 {
        lemma_line_numbers_count_lines(body, i - 1, start);
        assert(body.take(i).drop_last() =~= body.take(i - 1));
        assert(body.take(i).last() == body[i - 1]);
        let a = lines_of_kinds(body.take(i - 1), ' ', '-');
        let b = lines_of_kinds(body.take(i - 1), ' ', '+');
        assert(a.len() <= i - 1) by {
            lemma_filter_len(body.take(i - 1), ' ', '-');
        }
        assert(b.len() <= i - 1) by {
            lemma_filter_len(body.take(i - 1), ' ', '+');
        }
    } else {
        assert(body.take(0) =~= Seq::<HunkLineModel>::empty());
    }
}

proof fn lemma_filter_len(s: Seq<HunkLineModel>, a: char, b: char)
    ensures
        lines_of_kinds(s, a, b).len() <= s.len(),
    decreases s.len(),
{
    reveal(Seq::filter);
    if s.len() > 0 {
        lemma_filter_len(s.drop_last(), a, b);
    }
}

/// Every hunk written has a valid header: its old-side count is the number
/// of its context and `-` lines, its new-side count the number of its
/// context and `+` lines, each side starting at the line number of the
/// region's first line on that side.
pub proof fn lemma_region_header_counts(
    body: Seq<HunkLineModel>,
    old_start: nat,
    new_start: nat,
    r: (int, int),
)
    ensures
        ({
            let lines = body.subrange(r.0, region_end(body, r.1));
            let oc = lines_of_kinds(lines, ' ', '-').len();
            let nc = lines_of_kinds(lines, ' ', '+').len();
            render_region(body, old_start, new_start, r)[0] == hunk_header_line(
                begin_no(old_line_no(body, r.0, old_start), oc),
                oc,
                begin_no(new_line_no(body, r.0, new_start), nc),
                nc,
            ) && render_region(body, old_start, new_start, r).skip(1) == lines.map_values(
                |l: HunkLineModel| l.text,
            )
        }),
{
    let lines = body.subrange(r.0, region_end(body, r.1));
    lemma_counts_are_side_lines(lines);
    let t = render_region(body, old_start, new_start, r);
    assert(t.skip(1) =~= lines.map_values(|l: HunkLineModel| l.text));
}

struct HunkLine {
    kind: char,
    text: String,
}

spec fn body_view(v: Seq<HunkLine>) -> Seq<HunkLineModel> {
    v.map_values(|l: HunkLine| HunkLineModel { kind: l.kind, text: l.text@ })
}

fn is_change_line(l: &HunkLine) -> (b: bool)
    ensures
        b == is_change(HunkLineModel { kind: l.kind, text: l.text@ }),
{
    l.kind == '+' || l.kind == '-'
}

/// `@@ -a,b +c,d @@`
fn hunk_header_text(a: usize, b: usize, c: usize, d: usize) -> (s: String)
    ensures
        s@ == hunk_header_line(a as nat, b as nat, c as nat, d as nat),
{
    let mut v: Vec<char> = Vec::new();
    push_str(&mut v, "@@ -");
    push_decimal(&mut v, a);
    push_str(&mut v, ",");
    push_decimal(&mut v, b);
    push_str(&mut v, " +");
    push_decimal(&mut v, c);
    push_str(&mut v, ",");
    push_decimal(&mut v, d);
    push_str(&mut v, " @@");
    proof {
        assert(v@ =~= hunk_header_line(a as nat, b as nat, c as nat, d as nat));
    }
    string_of(v.as_slice())
}

/// Appends the lines of one kept region.
fn push_region(
    out: &mut Vec<String>,
    body: &Vec<HunkLine>,
    old_no: &Vec<usize>,
    new_no: &Vec<usize>,
    old_start: usize,
    new_start: usize,
    r: (usize, usize),
)
    requires
        0 <= r.0 < r.1 <= body@.len(),
        old_no@.len() == body@.len(),
        new_no@.len() == body@.len(),
        forall|k: int|
            0 <= k < body@.len() ==> #[trigger] old_no@[k] == old_line_no(
                body_view(body@),
                k,
                old_start as nat,
            ),
        forall|k: int|
            0 <= k < body@.len() ==> #[trigger] new_no@[k] == new_line_no(
                body_view(body@),
                k,
                new_start as nat,
            ),
    ensures
        lines_view(final(out)@) == lines_view(old(out)@) + render_region(
            body_view(body@),
            old_start as nat,
            new_start as nat,
            (r.0 as int, r.1 as int),
        ),
{
    let ghost bv = body_view(body@);
    let start = r.0;
    let mut end = r.1;
    if end < body.len() && body[end].kind == '\\' {
        end = end + 1;
    }
    let mut oc: usize = 0;
    let mut nc: usize = 0;
    let mut k = start;
    proof {
        assert(bv.subrange(start as int, start as int) =~= Seq::<HunkLineModel>::empty());
    }
    while k < end
        invariant
            start <= k <= end <= body@.len(),
            bv == body_view(body@),
            oc == count_old(bv.subrange(start as int, k as int)),
            nc == count_new(bv.subrange(start as int, k as int)),
            oc <= k - start,
            nc <= k - start,
        decreases end - k,
    {
        proof {
            let nxt = bv.subrange(start as int, k + 1);
            assert(nxt.drop_last() =~= bv.subrange(start as int, k as int));
            assert(nxt.last() == bv[k as int]);
        }
        let kind = body[k].kind;
        if kind == ' ' || kind == '-' {
            oc = oc + 1;
        }
        if kind == ' ' || kind == '+' {
            nc = nc + 1;
        }
        k = k + 1;
    }
    let ob = if oc == 0 {
        old_no[start].saturating_sub(1)
    } else {
        old_no[start]
    };
    let nb = if nc == 0 {
        new_no[start].saturating_sub(1)
    } else {
        new_no[start]
    };
    let ghost base = lines_view(out@);
    out.push(hunk_header_text(ob, oc, nb, nc));
    let ghost slice = bv.subrange(start as int, end as int);
    let ghost texts = slice.map_values(|l: HunkLineModel| l.text);
    proof {
        assert(lines_view(out@) =~= base + seq![hunk_header_line(ob as nat, oc as nat, nb as nat, nc as nat)]);
    }
    let ghost head = lines_view(out@);
    let mut k = start;
    while k < end
        invariant
            start <= k <= end <= body@.len(),
            bv == body_view(body@),
            slice == bv.subrange(start as int, end as int),
            texts == slice.map_values(|l: HunkLineModel| l.text),
            lines_view(out@) == head + texts.take(k - start),
        decreases end - k,
    {
        let t = body[k].text.clone();
        let ghost before = out@;
        out.push(t);
        proof {
            assert(lines_view(out@) =~= lines_view(before).push(t@));
            assert(texts.take(k + 1 - start) =~= texts.take(k - start).push(texts[k - start]));
            assert(texts[k - start] == bv[k as int].text);
        }
        k = k + 1;
    }
    proof {
        assert(texts.take(end - start) =~= texts);
        assert(region_end(bv, r.1 as int) == end);
        assert(lines_view(out@) =~= base + render_region(
            bv,
            old_start as nat,
            new_start as nat,
            (r.0 as int, r.1 as int),
        ));
    }
}

/// Split a hunk body into the regions worth keeping and render each as its
/// own `@@` hunk with recomputed line numbers.
fn render_hunk(body: &Vec<HunkLine>, old_start: usize, new_start: usize, context: usize) -> (out:
    Vec<String>)
    ensures
        lines_view(out@) == render_hunk_spec(
            body_view(body@),
            old_start as nat,
            new_start as nat,
            context as nat,
        ),
{
    let ghost bv = body_view(body@);
    let n = body.len();
    // Line numbers each body entry occupies in the old and new file.
    let mut old_no: Vec<usize> = Vec::new();
    let mut new_no: Vec<usize> = Vec::new();
    let mut old_cur = old_start;
    let mut new_cur = new_start;
    let mut i: usize = 0;
    while i < n
        invariant
            n == body@.len(),
            bv == body_view(body@),
            i <= n,
            old_no@.len() == i,
            new_no@.len() == i,
            forall|k: int| 0 <= k < i ==> #[trigger] old_no@[k] == old_line_no(bv, k, old_start as nat),
            forall|k: int| 0 <= k < i ==> #[trigger] new_no@[k] == new_line_no(bv, k, new_start as nat),
            old_cur == old_line_no(bv, i as int, old_start as nat),
            new_cur == new_line_no(bv, i as int, new_start as nat),
        decreases n - i,
    {
        old_no.push(old_cur);
        new_no.push(new_cur);
        let kind = body[i].kind;
        if kind == ' ' || kind == '-' {
            old_cur = old_cur.saturating_add(1);
        }
        if kind == ' ' || kind == '+' {
            new_cur = new_cur.saturating_add(1);
        }
        i = i + 1;
    }
    // Keep regions around each change, merged when they touch or overlap.
    let mut ranges: Vec<(usize, usize)> = Vec::new();
    let mut i: usize = 0;
    while i < n
        invariant
            n == body@.len(),
            bv == body_view(body@),
            i <= n,
            ranges@.len() == keep_ranges(bv, context as nat, i as int).len(),
            forall|x: int|
                0 <= x < ranges@.len() ==> (#[trigger] ranges@[x]).0 as int == keep_ranges(
                    bv,
                    context as nat,
                    i as int,
                )[x].0 && ranges@[x].1 as int == keep_ranges(bv, context as nat, i as int)[x].1,
        decreases n - i,
    {
        proof {
            lemma_keep_ranges_ok(bv, context as nat, i as int);
        }
        if is_change_line(&body[i]) {
            let s = if i >= context {
                i - context
            } else {
                0
            };
            let e = if context < n - i {
                i + context + 1
            } else {
                n
            };
            let ghost acc = keep_ranges(bv, context as nat, i as int);
            if ranges.len() > 0 && s <= ranges[ranges.len() - 1].1 {
                let last = ranges.pop().unwrap();
                let new_end = if last.1 >= e {
                    last.1
                } else {
                    e
                };
                ranges.push((last.0, new_end));
            } else {
                ranges.push((s, e));
            }
            proof {
                assert(keep_ranges(bv, context as nat, i + 1) == merge_range(acc, s as int, e as int));
            }
        }
        i = i + 1;
    }
    proof {
        lemma_keep_ranges_ok(bv, context as nat, n as int);
    }
    let ghost rs = keep_ranges(bv, context as nat, n as int);
    let mut out: Vec<String> = Vec::new();
    let mut x: usize = 0;
    proof {
        assert(rs.take(0) =~= Seq::<(int, int)>::empty());
        assert(lines_view(out@) =~= Seq::<Seq<char>>::empty());
    }
    while x < ranges.len()
        invariant
            n == body@.len(),
            bv == body_view(body@),
            old_no@.len() == n,
            new_no@.len() == n,
            forall|k: int| 0 <= k < n ==> #[trigger] old_no@[k] == old_line_no(bv, k, old_start as nat),
            forall|k: int| 0 <= k < n ==> #[trigger] new_no@[k] == new_line_no(bv, k, new_start as nat),
            rs == keep_ranges(bv, context as nat, n as int),
            ranges_ok(rs, n as int),
            ranges@.len() == rs.len(),
            forall|y: int|
                0 <= y < ranges@.len() ==> (#[trigger] ranges@[y]).0 as int == rs[y].0
                    && ranges@[y].1 as int == rs[y].1,
            x <= ranges@.len(),
            lines_view(out@) == render_regions(bv, old_start as nat, new_start as nat, rs.take(x as int)),
        decreases ranges@.len() - x,
    {
        let r = ranges[x];
        push_region(&mut out, body, &old_no, &new_no, old_start, new_start, r);
        proof {
            assert(rs.take(x + 1).drop_last() =~= rs.take(x as int));
            assert(rs.take(x + 1).last() == rs[x as int]);
        }
        x = x + 1;
    }
    proof {
        assert(rs.take(rs.len() as int) =~= rs);
    }
    out
}

// ---------------------------------------------------------------------------
// Generated files
// ---------------------------------------------------------------------------

/// Number of trailing characters of `s` that are not `c`.
pub open spec fn trail_not(s: Seq<char>, c: char) -> nat
    decreases s.len(),
{
    if s.len() > 0 && s.last() != c {
        1 + trail_not(s.drop_last(), c)
    } else {
        0
    }
}

/// The last component of a `/`-separated path.
pub open spec fn base_name(p: Seq<char>) -> Seq<char> {
    p.skip(p.len() - trail_not(p, '/'))
}

pub open spec fn ends_with(s: Seq<char>, suf: Seq<char>) -> bool {
    suf.len() <= s.len() && has_at(s, s.len() - suf.len(), suf)
}

/// Files whose diffs are churn: lock files, generated and minified files.
pub open spec fn is_noise(path: Seq<char>) -> bool {
    let base = base_name(path);
    ||| base == "package-lock.json"@
    ||| base == "yarn.lock"@
    ||| base == "pnpm-lock.yaml"@
    ||| base == "Cargo.lock"@
    ||| base == "composer.lock"@
    ||| base == "Gemfile.lock"@
    ||| base == "poetry.lock"@
    ||| base == "go.sum"@
    ||| base == "flake.lock"@
    ||| base == "bun.lockb"@
    ||| ends_with(path, ".lock"@)
    ||| ends_with(path, ".min.js"@)
    ||| ends_with(path, ".min.css"@)
    ||| ends_with(path, ".map"@)
    ||| ends_with(path, ".pb.go"@)
    ||| ends_with(path, "_pb2.py"@)
}

fn base_start(p: &Vec<char>) -> (b: usize)
    ensures
        b == p@.len() - trail_not(p@, '/'),
        b <= p@.len(),
{
    let mut k: usize = 0;
    proof {
        assert(p@.take(p@.len() as int) =~= p@);
    }
    while k < p.len() && p[p.len() - 1 - k] != '/'
        invariant
            k <= p@.len(),
            trail_not(p@, '/') == k + trail_not(p@.take(p@.len() - k), '/'),
        decreases p@.len() - k,
    {
        proof {
            let t = p@.take(p@.len() - k);
            assert(t.drop_last() =~= p@.take(p@.len() - k - 1));
        }
        k = k + 1;
    }
    proof {
        assert(p@.take(p@.len() as int) =~= p@);
        let t = p@.take(p@.len() - k);
        assert(trail_not(t, '/') == 0);
    }
    p.len() - k
}

fn ends_with_text(v: &Vec<char>, suf: &str) -> (b: bool)
    ensures
        b == ends_with(v@, suf@),
{
    let n = chars_of(suf).len();
    n <= v.len() && at(v, v.len() - n, suf)
}

fn noise_path(p: &Vec<char>) -> (b: bool)
    ensures
        b == is_noise(p@),
{
    let b0 = base_start(p);
    let mut base: Vec<char> = Vec::new();
    push_range(&mut base, p, b0, p.len());
    proof {
        assert(base@ =~= base_name(p@));
    }
    crate::text::equals(&base, "package-lock.json") || crate::text::equals(&base, "yarn.lock")
        || crate::text::equals(&base, "pnpm-lock.yaml") || crate::text::equals(&base, "Cargo.lock")
        || crate::text::equals(&base, "composer.lock") || crate::text::equals(
        &base,
        "Gemfile.lock",
    ) || crate::text::equals(&base, "poetry.lock") || crate::text::equals(&base, "go.sum")
        || crate::text::equals(&base, "flake.lock") || crate::text::equals(&base, "bun.lockb")
        || ends_with_text(p, ".lock") || ends_with_text(p, ".min.js") || ends_with_text(
        p,
        ".min.css",
    ) || ends_with_text(p, ".map") || ends_with_text(p, ".pb.go") || ends_with_text(p, "_pb2.py")
}

// ---------------------------------------------------------------------------
// The minimizer
// ---------------------------------------------------------------------------

/// The file whose diff is being read.
pub struct FileModel {
    pub path: Seq<char>,
    pub noise: bool,
    pub added: nat,
    pub removed: nat,
    pub binary: bool,
    pub header_emitted: bool,
}

/// The state of a [`DiffMinimizer`].
pub struct DiffModel {
    pub context: nat,
    pub file: Option<FileModel>,
    /// Start lines of the hunk being buffered.
    pub hunk: Option<(nat, nat)>,
    pub body: Seq<HunkLineModel>,
}

/// `a + c`, saturating at `usize::MAX`.
pub open spec fn sat_add(a: nat, c: nat) -> nat {
    if a + c <= usize::MAX {
        a + c
    } else {
        usize::MAX as nat
    }
}

/// Body lines of kind `k`.
pub open spec fn count_kind(body: Seq<HunkLineModel>, k: char) -> nat
    decreases body.len(),
{
    if body.len() == 0 {
        0
    } else {
        count_kind(body.drop_last(), k) + if body.last().kind == k {
            1nat
        } else {
            0nat
        }
    }
}

/// The file's added and removed counts, tallied from a hunk before it is
/// dropped or rendered.
pub open spec fn tally(f: FileModel, body: Seq<HunkLineModel>) -> FileModel {
    FileModel {
        added: sat_add(f.added, count_kind(body, '+')),
        removed: sat_add(f.removed, count_kind(body, '-')),
        ..f
    }
}

pub open spec fn file_is_noise(st: DiffModel) -> bool {
    st.file is Some && st.file->0.noise
}

pub open spec fn flush_hunk_spec(st: DiffModel) -> (DiffModel, Seq<Seq<char>>) {
    match st.hunk {
        None => (DiffModel { body: Seq::empty(), ..st }, Seq::empty()),
        Some((o, n)) => {
            let st2 = DiffModel {
                hunk: None,
                body: Seq::empty(),
                file: match st.file {
                    Some(f) => Some(tally(f, st.body)),
                    None => None,
                },
                ..st
            };
            if file_is_noise(st) {
                (st2, Seq::empty())
            } else {
                (st2, render_hunk_spec(st.body, o, n, st.context))
            }
        },
    }
}

/// `[skipped generated file Cargo.lock: +412/-87 lines]`
pub open spec fn skip_note(f: FileModel) -> Seq<char> {
    "[skipped generated file "@ + f.path + ": +"@ + decimal(f.added) + "/-"@ + decimal(f.removed)
        + " lines]"@
}

/// `[binary file logo.png changed]`
pub open spec fn binary_note(f: FileModel) -> Seq<char> {
    "[binary file "@ + f.path + " changed]"@
}

pub open spec fn file_note(f: FileModel) -> Seq<Seq<char>> {
    if f.noise {
        seq![skip_note(f)]
    } else if f.binary {
        seq![binary_note(f)]
    } else {
        Seq::empty()
    }
}

pub open spec fn flush_file_spec(st: DiffModel) -> (DiffModel, Seq<Seq<char>>) {
    let (s1, o1) = flush_hunk_spec(st);
    match s1.file {
        None => (s1, o1),
        Some(f) => (DiffModel { file: None, ..s1 }, o1 + file_note(f)),
    }
}

/// Header lines are held back so a noise file emits nothing but its summary.
pub open spec fn emit_header_spec(st: DiffModel, line: Seq<char>) -> (DiffModel, Seq<Seq<char>>) {
    if file_is_noise(st) {
        (st, Seq::empty())
    } else {
        (
            DiffModel {
                file: match st.file {
                    Some(f) => Some(FileModel { header_emitted: true, ..f }),
                    None => None,
                },
                ..st
            },
            seq![line],
        )
    }
}

pub open spec fn is_body_kind(c: char) -> bool {
    c == ' ' || c == '+' || c == '-' || c == '\\'
}

/// A line outside any hunk.
pub open spec fn header_line_spec(st: DiffModel, line: Seq<char>) -> (DiffModel, Seq<Seq<char>>) {
    if st.file is Some {
        if has_at(line, 0, "index "@) || has_at(line, 0, "similarity index "@) {
            // Blob hashes carry no meaning for a model.
            (st, Seq::empty())
        } else if has_at(line, 0, "Binary files "@) || has_at(line, 0, "GIT binary patch"@) {
            (DiffModel { file: Some(FileModel { binary: true, ..st.file->0 }), ..st }, Seq::empty())
        } else {
            emit_header_spec(st, line)
        }
    } else {
        (st, seq![line])
    }
}

/// One input line.
pub open spec fn diff_on_line_spec(st: DiffModel, line: Seq<char>) -> (DiffModel, Seq<Seq<char>>) {
    if diff_git(line) is Some {
        let path = diff_git(line)->0;
        let (s1, o1) = flush_file_spec(st);
        let s2 = DiffModel {
            file: Some(
                FileModel {
                    path,
                    noise: is_noise(path),
                    added: 0,
                    removed: 0,
                    binary: false,
                    header_emitted: false,
                },
            ),
            ..s1
        };
        let (s3, o3) = emit_header_spec(s2, line);
        (s3, o1 + o3)
    } else if hunk_header(line) is Some {
        let (s1, o1) = flush_hunk_spec(st);
        (DiffModel { hunk: hunk_header(line), ..s1 }, o1)
    } else if st.hunk is Some && is_body_kind(line_kind(line)) {
        (
            DiffModel {
                body: st.body.push(HunkLineModel { kind: line_kind(line), text: line }),
                ..st
            },
            Seq::empty(),
        )
    } else if st.hunk is Some {
        // Anything else ends the hunk (e.g. a trailing summary line).
        let (s1, o1) = flush_hunk_spec(st);
        let (s2, o2) = header_line_spec(s1, line);
        (s2, o1 + o2)
    } else {
        header_line_spec(st, line)
    }
}

struct FileState {
    path: String,
    noise: bool,
    added: usize,
    removed: usize,
    binary: bool,
    header_emitted: bool,
}

spec fn file_view(f: FileState) -> FileModel {
    FileModel {
        path: f.path@,
        noise: f.noise,
        added: f.added as nat,
        removed: f.removed as nat,
        binary: f.binary,
        header_emitted: f.header_emitted,
    }
}

/// Minimizes a unified diff stream.
pub struct DiffMinimizer {
    context: usize,
    file: Option<FileState>,
    hunk_header: Option<(usize, usize)>,
    body: Vec<HunkLine>,
}

impl View for DiffMinimizer {
    type V = DiffModel;

    closed spec fn view(&self) -> DiffModel {
        DiffModel {
            context: self.context as nat,
            file: match self.file {
                Some(f) => Some(file_view(f)),
                None => None,
            },
            hunk: match self.hunk_header {
                Some((o, n)) => Some((o as nat, n as nat)),
                None => None,
            },
            body: body_view(self.body@),
        }
    }
}

/// `[skipped generated file ...]` or `[binary file ...]`, when the file has one.
fn file_note_text(f: &FileState, out: &mut Vec<String>)
    ensures
        lines_view(final(out)@) == lines_view(old(out)@) + file_note(file_view(*f)),
{
    let ghost base = lines_view(out@);
    if f.noise {
        let mut v: Vec<char> = Vec::new();
        push_str(&mut v, "[skipped generated file ");
        push_str(&mut v, f.path.as_str());
        push_str(&mut v, ": +");
        push_decimal(&mut v, f.added);
        push_str(&mut v, "/-");
        push_decimal(&mut v, f.removed);
        push_str(&mut v, " lines]");
        proof {
            assert(v@ =~= skip_note(file_view(*f)));
        }
        out.push(string_of(v.as_slice()));
        proof {
            assert(lines_view(out@) =~= base + file_note(file_view(*f)));
        }
    } else if f.binary {
        let mut v: Vec<char> = Vec::new();
        push_str(&mut v, "[binary file ");
        push_str(&mut v, f.path.as_str());
        push_str(&mut v, " changed]");
        proof {
            assert(v@ =~= binary_note(file_view(*f)));
        }
        out.push(string_of(v.as_slice()));
        proof {
            assert(lines_view(out@) =~= base + file_note(file_view(*f)));
        }
    } else {
        proof {
            assert(lines_view(out@) =~= base + file_note(file_view(*f)));
        }
    }
}

impl DiffMinimizer {
    pub fn new(context: usize) -> (d: Self)
        ensures
            d@ == (DiffModel { context: context as nat, file: None, hunk: None, body: Seq::empty() }),
    {
        let d = DiffMinimizer { context, file: None, hunk_header: None, body: Vec::new() };
        proof {
            assert(d@.body =~= Seq::<HunkLineModel>::empty());
        }
        d
    }

    fn flush_hunk(&mut self, out: &mut Vec<String>)
        ensures
            final(self)@ == flush_hunk_spec(old(self)@).0,
            lines_view(final(out)@) == lines_view(old(out)@) + flush_hunk_spec(old(self)@).1,
    {
        let ghost bv = body_view(self.body@);
        match self.hunk_header {
            None => {
                self.body = Vec::new();
                proof {
                    assert(self@.body =~= Seq::<HunkLineModel>::empty());
                    assert(lines_view(out@) =~= lines_view(out@) + Seq::<Seq<char>>::empty());
                }
            },
            Some((old_start, new_start)) => {
                self.hunk_header = None;
                let mut body: Vec<HunkLine> = Vec::new();
                std::mem::swap(&mut body, &mut self.body);
                let noise = match &self.file {
                    Some(f) => f.noise,
                    None => false,
                };
                let ghost of = old(self)@.file;
                match self.file.take() {
                    Some(mut f) => {
                        let ghost f0 = file_view(f);
                        let ghost a0 = f.added as nat;
                        let ghost r0 = f.removed as nat;
                        let mut i: usize = 0;
                        proof {
                            assert(bv.take(0) =~= Seq::<HunkLineModel>::empty());
                        }
                        while i < body.len()
                            invariant
                                i <= body@.len(),
                                bv == body_view(body@),
                                f.added == sat_add(a0, count_kind(bv.take(i as int), '+')),
                                f.removed == sat_add(r0, count_kind(bv.take(i as int), '-')),
                                f.path@ == f0.path,
                                f.noise == f0.noise,
                                f.binary == f0.binary,
                                f.header_emitted == f0.header_emitted,
                                a0 == f0.added,
                                r0 == f0.removed,
                            decreases body@.len() - i,
                        {
                            proof {
                                assert(bv.take(i + 1).drop_last() =~= bv.take(i as int));
                                assert(bv.take(i + 1).last() == bv[i as int]);
                            }
                            if body[i].kind == '+' {
                                f.added = f.added.saturating_add(1);
                            } else if body[i].kind == '-' {
                                f.removed = f.removed.saturating_add(1);
                            }
                            i = i + 1;
                        }
                        proof {
                            assert(bv.take(body@.len() as int) =~= bv);
                            assert(file_view(f) == tally(f0, bv));
                        }
                        self.file = Some(f);
                    },
                    None => {},
                }
                proof {
                    assert(self@.body =~= Seq::<HunkLineModel>::empty());
                    assert(self@.file == match of {
                        Some(f) => Some(tally(f, bv)),
                        None => None,
                    });
                    assert(self@ == flush_hunk_spec(old(self)@).0);
                }
                if noise {
                    proof {
                        assert(lines_view(out@) =~= lines_view(out@) + Seq::<Seq<char>>::empty());
                    }
                    return;
                }
                let rendered = render_hunk(&body, old_start, new_start, self.context);
                crate::text::push_lines(out, &rendered);
            },
        }
    }

    fn flush_file(&mut self, out: &mut Vec<String>)
        ensures
            final(self)@ == flush_file_spec(old(self)@).0,
            lines_view(final(out)@) == lines_view(old(out)@) + flush_file_spec(old(self)@).1,
    {
        self.flush_hunk(out);
        match self.file.take() {
            Some(f) => {
                let ghost mid = lines_view(out@);
                file_note_text(&f, out);
            },
            None => {},
        }
    }

    fn emit_header(&mut self, line: &str, out: &mut Vec<String>)
        ensures
            final(self)@ == emit_header_spec(old(self)@, line@).0,
            lines_view(final(out)@) == lines_view(old(out)@) + emit_header_spec(old(self)@, line@).1,
    {
        let noise = match &self.file {
            Some(f) => f.noise,
            None => false,
        };
        if noise {
            proof {
                assert(lines_view(out@) =~= lines_view(out@) + Seq::<Seq<char>>::empty());
            }
            return;
        }
        match self.file.take() {
            Some(mut f) => {
                f.header_emitted = true;
                self.file = Some(f);
            },
            None => {},
        }
        crate::text::push_line(out, line);
    }

    fn header_line(&mut self, line: &str, v: &Vec<char>, out: &mut Vec<String>)
        requires
            v@ == line@,
        ensures
            final(self)@ == header_line_spec(old(self)@, line@).0,
            lines_view(final(out)@) == lines_view(old(out)@) + header_line_spec(old(self)@, line@).1,
    {
        if self.file.is_some() {
            if at(v, 0, "index ") || at(v, 0, "similarity index ") {
                proof {
                    assert(lines_view(out@) =~= lines_view(out@) + Seq::<Seq<char>>::empty());
                }
                return;
            }
            if at(v, 0, "Binary files ") || at(v, 0, "GIT binary patch") {
                match self.file.take() {
                    Some(mut f) => {
                        f.binary = true;
                        self.file = Some(f);
                    },
                    None => {},
                }
                proof {
                    assert(lines_view(out@) =~= lines_view(out@) + Seq::<Seq<char>>::empty());
                }
                return;
            }
            self.emit_header(line, out);
        } else {
            crate::text::push_line(out, line);
        }
    }

    /// One input line; emits what [`diff_on_line_spec`] says.
    pub fn on_line(&mut self, line: &str, out: &mut Vec<String>)
        ensures
            final(self)@ == diff_on_line_spec(old(self)@, line@).0,
            lines_view(final(out)@) == lines_view(old(out)@) + diff_on_line_spec(old(self)@, line@).1,
    {
        let v = chars_of(line);
        if let Some(path) = match_diff_git(&v) {
            self.flush_file(out);
            let noise = noise_path(&path);
            self.file = Some(
                FileState {
                    path: string_of(path.as_slice()),
                    noise,
                    added: 0,
                    removed: 0,
                    binary: false,
                    header_emitted: false,
                },
            );
            let ghost mid = lines_view(out@);
            self.emit_header(line, out);
            proof {
                assert(lines_view(out@) =~= lines_view(old(out)@) + diff_on_line_spec(
                    old(self)@,
                    line@,
                ).1);
            }
            return;
        }
        if let Some((o, n)) = match_hunk_header(&v) {
            self.flush_hunk(out);
            self.hunk_header = Some((o, n));
            return;
        }
        if self.hunk_header.is_some() {
            let kind = if v.len() == 0 {
                ' '
            } else {
                v[0]
            };
            if kind == ' ' || kind == '+' || kind == '-' || kind == '\\' {
                self.body.push(HunkLine { kind, text: line.to_owned() });
                proof {
                    assert(self@.body =~= old(self)@.body.push(
                        HunkLineModel { kind: line_kind(line@), text: line@ },
                    ));
                    assert(lines_view(out@) =~= lines_view(out@) + Seq::<Seq<char>>::empty());
                }
                return;
            }
            self.flush_hunk(out);
            let ghost mid = lines_view(out@);
            self.header_line(line, &v, out);
            proof {
                assert(lines_view(out@) =~= lines_view(old(out)@) + diff_on_line_spec(
                    old(self)@,
                    line@,
                ).1);
            }
            return;
        }
        self.header_line(line, &v, out);
    }

    /// End of input: flush the open hunk and file.
    pub fn finish(&mut self, out: &mut Vec<String>)
        ensures
            final(self)@ == flush_file_spec(old(self)@).0,
            lines_view(final(out)@) == lines_view(old(out)@) + flush_file_spec(old(self)@).1,
    {
        self.flush_file(out);
    }
}

impl crate::processors::LineProcessor for DiffMinimizer {
    fn on_line(&mut self, line: &str, out: &mut Vec<String>)
        ensures
            final(self)@ == diff_on_line_spec(old(self)@, line@).0,
            lines_view(final(out)@) == lines_view(old(out)@) + diff_on_line_spec(old(self)@, line@).1,
    {
        DiffMinimizer::on_line(self, line, out)
    }

    fn finish(&mut self, out: &mut Vec<String>)
        ensures
            final(self)@ == flush_file_spec(old(self)@).0,
            lines_view(final(out)@) == lines_view(old(out)@) + flush_file_spec(old(self)@).1,
    {
        DiffMinimizer::finish(self, out)
    }

    fn name(&self) -> (n: &'static str)
        ensures
            n@ == "diff"@,
    {
        "diff"
    }
}

// ---------------------------------------------------------------------------
// What survives
// ---------------------------------------------------------------------------

/// A hunk header, as this minimizer writes it.
pub open spec fn is_hunk_header(l: Seq<char>) -> bool {
    exists|a: nat, b: nat, c: nat, d: nat| #[trigger] hunk_header_line(a, b, c, d) == l
}

/// A skipped-file or binary-file marker, as this minimizer writes it.
pub open spec fn is_file_note(l: Seq<char>) -> bool {
    exists|f: FileModel|
        #![trigger skip_note(f)]
        #![trigger binary_note(f)]
        skip_note(f) == l || binary_note(f) == l
}

/// A line the diff minimizer may write when every line it takes satisfies
/// `ok`: such a line verbatim, a recomputed hunk header, or a file marker.
pub open spec fn diff_kept(l: Seq<char>, ok: spec_fn(Seq<char>) -> bool) -> bool {
    ok(l) || is_hunk_header(l) || is_file_note(l)
}

pub open spec fn all_diff_kept(o: Seq<Seq<char>>, ok: spec_fn(Seq<char>) -> bool) -> bool {
    forall|k: int| 0 <= k < o.len() ==> diff_kept(#[trigger] o[k], ok)
}

/// Every buffered hunk line satisfies `ok`.
pub open spec fn body_ok(st: DiffModel, ok: spec_fn(Seq<char>) -> bool) -> bool {
    forall|k: int| 0 <= k < st.body.len() ==> ok(#[trigger] st.body[k].text)
}

proof fn lemma_diff_kept_add(a: Seq<Seq<char>>, b: Seq<Seq<char>>, ok: spec_fn(Seq<char>) -> bool)
    requires
        all_diff_kept(a, ok),
        all_diff_kept(b, ok),
    ensures
        all_diff_kept(a + b, ok),
{
    assert forall|k: int| 0 <= k < (a + b).len() implies diff_kept(#[trigger] (a + b)[k], ok) by {
        if k < a.len() {
            assert((a + b)[k] == a[k]);
        } else {
            assert((a + b)[k] == b[k - a.len()]);
        }
    }
}

proof fn lemma_regions_kept(
    body: Seq<HunkLineModel>,
    o: nat,
    n: nat,
    rs: Seq<(int, int)>,
    ok: spec_fn(Seq<char>) -> bool,
)
    requires
        ranges_ok(rs, body.len() as int),
        forall|k: int| 0 <= k < body.len() ==> ok(#[trigger] body[k].text),
    ensures
        all_diff_kept(render_regions(body, o, n, rs), ok),
    decreases rs.len(),
{
    if rs.len() > 0 {
        let init = rs.drop_last();
        assert(ranges_ok(init, body.len() as int)) by {
            assert forall|x: int| 0 <= x < init.len() implies 0 <= (#[trigger] init[x]).0
                < init[x].1 <= body.len() by {
                assert(init[x] == rs[x]);
            }
            assert forall|x: int| 0 <= x < init.len() - 1 implies (#[trigger] init[x]).1 < init[x
                + 1].0 by {
                assert(init[x] == rs[x]);
                assert(init[x + 1] == rs[x + 1]);
            }
        }
        lemma_regions_kept(body, o, n, init, ok);
        let r = rs.last();
        assert(0 <= r.0 < r.1 <= body.len()) by {
            assert(rs[rs.len() - 1] == r);
        }
        let end = region_end(body, r.1);
        let slice = body.subrange(r.0, end);
        let region = render_region(body, o, n, r);
        let texts = slice.map_values(|l: HunkLineModel| l.text);
        let oc = count_old(slice);
        let nc = count_new(slice);
        let header = hunk_header_line(
            begin_no(old_line_no(body, r.0, o), oc),
            oc,
            begin_no(new_line_no(body, r.0, n), nc),
            nc,
        );
        assert(region == seq![header] + texts);
        assert forall|k: int| 0 <= k < region.len() implies diff_kept(#[trigger] region[k], ok) by {
            if k == 0 {
                assert(region[0] == header);
            } else {
                assert(region[k] == texts[k - 1]);
                assert(texts[k - 1] == body[r.0 + k - 1].text);
            }
        }
        lemma_diff_kept_add(render_regions(body, o, n, init), region, ok);
    }
}

proof fn lemma_flush_hunk_kept(st: DiffModel, ok: spec_fn(Seq<char>) -> bool)
    requires
        body_ok(st, ok),
    ensures
        all_diff_kept(flush_hunk_spec(st).1, ok),
        flush_hunk_spec(st).0.body.len() == 0,
{
    if st.hunk is Some {
        let (o, n) = st.hunk->0;
        lemma_changes_survive(st.body, st.context);
        lemma_regions_kept(st.body, o, n, keep_ranges(st.body, st.context, st.body.len() as int), ok);
    }
}

proof fn lemma_flush_file_kept(st: DiffModel, ok: spec_fn(Seq<char>) -> bool)
    requires
        body_ok(st, ok),
    ensures
        all_diff_kept(flush_file_spec(st).1, ok),
        flush_file_spec(st).0.body.len() == 0,
{
    lemma_flush_hunk_kept(st, ok);
    let (s1, o1) = flush_hunk_spec(st);
    match s1.file {
        None => {},
        Some(f) => {
            let note = file_note(f);
            assert forall|k: int| 0 <= k < note.len() implies diff_kept(#[trigger] note[k], ok) by {
                if f.noise {
                    assert(note[k] == skip_note(f));
                } else {
                    assert(note[k] == binary_note(f));
                }
            }
            lemma_diff_kept_add(o1, note, ok);
        },
    }
}

/// One step keeps the minimizer's output accounted for: when the buffered
/// hunk lines and the new line satisfy `ok`, every line written (now, or at
/// the end of input) satisfies `ok`, or is a hunk header or a file marker.
pub proof fn lemma_diff_step_kept(st: DiffModel, line: Seq<char>, ok: spec_fn(Seq<char>) -> bool)
    requires
        body_ok(st, ok),
        ok(line),
    ensures
        body_ok(diff_on_line_spec(st, line).0, ok),
        all_diff_kept(diff_on_line_spec(st, line).1, ok),
        all_diff_kept(flush_file_spec(st).1, ok),
        flush_file_spec(st).0.body.len() == 0,
{
    lemma_flush_file_kept(st, ok);
    lemma_flush_hunk_kept(st, ok);
    let single = seq![line];
    assert(all_diff_kept(single, ok)) by {
        assert(single[0] == line);
    }
    assert(all_diff_kept(Seq::<Seq<char>>::empty(), ok));
    let r = diff_on_line_spec(st, line);
    if diff_git(line) is Some {
        let (s1, o1) = flush_file_spec(st);
        lemma_diff_kept_add(o1, single, ok);
        lemma_diff_kept_add(o1, Seq::empty(), ok);
    } else if hunk_header(line) is Some {
    } else if st.hunk is Some && is_body_kind(line_kind(line)) {
        assert forall|k: int| 0 <= k < r.0.body.len() implies ok(#[trigger] r.0.body[k].text) by {
            if k < st.body.len() {
                assert(r.0.body[k] == st.body[k]);
            } else {
                assert(r.0.body[k].text == line);
            }
        }
    } else if st.hunk is Some {
        let (s1, o1) = flush_hunk_spec(st);
        lemma_diff_kept_add(o1, single, ok);
        lemma_diff_kept_add(o1, Seq::empty(), ok);
    }
}

/// The diff minimizer fed `lines` in order, before the end of input.
pub open spec fn diff_lines(st: DiffModel, lines: Seq<Seq<char>>) -> (DiffModel, Seq<Seq<char>>)
    decreases lines.len(),
{
    if lines.len() == 0 {
        (st, Seq::empty())
    } else {
        let (s1, o1) = diff_lines(st, lines.drop_last());
        let (s2, o2) = diff_on_line_spec(s1, lines.last());
        (s2, o1 + o2)
    }
}

proof fn lemma_diff_lines_kept(st: DiffModel, lines: Seq<Seq<char>>, ok: spec_fn(Seq<char>) -> bool)
    requires
        body_ok(st, ok),
        forall|i: int| 0 <= i < lines.len() ==> ok(#[trigger] lines[i]),
    ensures
        body_ok(diff_lines(st, lines).0, ok),
        all_diff_kept(diff_lines(st, lines).1, ok),
    decreases lines.len(),
{
    if lines.len() > 0 {
        let p = lines.drop_last();
        let l = lines.last();
        assert forall|i: int| 0 <= i < p.len() implies ok(#[trigger] p[i]) by {
            assert(p[i] == lines[i]);
        }
        assert(ok(lines[lines.len() - 1]));
        lemma_diff_lines_kept(st, p, ok);
        let (s1, o1) = diff_lines(st, p);
        lemma_diff_step_kept(s1, l, ok);
        lemma_diff_kept_add(o1, diff_on_line_spec(s1, l).1, ok);
    }
}

/// Lines survive verbatim or are accounted for: whenever every line fed in
/// satisfies `ok` (say, "is one of the input lines"), every line the diff
/// minimizer writes satisfies it too, byte for byte, or is a hunk header
/// with recomputed counts, or the marker of a skipped generated or binary
/// file.
pub proof fn lemma_diff_lines_are_input_lines(
    st: DiffModel,
    lines: Seq<Seq<char>>,
    ok: spec_fn(Seq<char>) -> bool,
)
    requires
        body_ok(st, ok),
        forall|i: int| 0 <= i < lines.len() ==> ok(#[trigger] lines[i]),
    ensures
        all_diff_kept(diff_lines(st, lines).1 + flush_file_spec(diff_lines(st, lines).0).1, ok),
{
    lemma_diff_lines_kept(st, lines, ok);
    let (s1, o1) = diff_lines(st, lines);
    lemma_flush_file_kept(s1, ok);
    lemma_diff_kept_add(o1, flush_file_spec(s1).1, ok);
}

// ---------------------------------------------------------------------------
// Order
// ---------------------------------------------------------------------------

/// The text of the buffered hunk lines, in order.
pub open spec fn diff_pending(st: DiffModel) -> Seq<Seq<char>> {
    st.body.map_values(|l: HunkLineModel| l.text)
}

/// Outside a hunk nothing is buffered.
pub open spec fn diff_inv(st: DiffModel) -> bool {
    st.hunk is None ==> st.body.len() == 0
}

/// How far the kept regions reach into the hunk body.
pub open spec fn regions_reach(body: Seq<HunkLineModel>, rs: Seq<(int, int)>) -> int {
    if rs.len() == 0 {
        0
    } else {
        region_end(body, rs.last().1)
    }
}

proof fn lemma_regions_in_order(body: Seq<HunkLineModel>, o: nat, n: nat, rs: Seq<(int, int)>)
    requires
        ranges_ok(rs, body.len() as int),
    ensures
        0 <= regions_reach(body, rs) <= body.len(),
        is_subseq(
            content_of(render_regions(body, o, n, rs)),
            content_of(body.map_values(|l: HunkLineModel| l.text).take(regions_reach(body, rs))),
        ),
    decreases rs.len(),
{
    let texts = body.map_values(|l: HunkLineModel| l.text);
    if rs.len() == 0 {
        lemma_subseq_empty(content_of(texts.take(0)));
    } else {
        let init = rs.drop_last();
        assert(ranges_ok(init, body.len() as int)) by {
            assert forall|x: int| 0 <= x < init.len() implies 0 <= (#[trigger] init[x]).0
                < init[x].1 <= body.len() by {
                assert(init[x] == rs[x]);
            }
            assert forall|x: int| 0 <= x < init.len() - 1 implies (#[trigger] init[x]).1 < init[x
                + 1].0 by {
                assert(init[x] == rs[x]);
                assert(init[x + 1] == rs[x + 1]);
            }
        }
        lemma_regions_in_order(body, o, n, init);
        let r = rs.last();
        assert(0 <= r.0 < r.1 <= body.len()) by {
            assert(rs[rs.len() - 1] == r);
        }
        let lim0 = regions_reach(body, init);
        if init.len() > 0 {
            assert(init.last() == rs[rs.len() - 2]);
            assert(rs[rs.len() - 2].1 < rs[rs.len() - 1].0);
        }
        assert(lim0 <= r.0);
        let end = region_end(body, r.1);
        let slice = body.subrange(r.0, end);
        let oc = count_old(slice);
        let nc = count_new(slice);
        let header = hunk_header_line(
            begin_no(old_line_no(body, r.0, o), oc),
            oc,
            begin_no(new_line_no(body, r.0, n), nc),
            nc,
        );
        let stexts = slice.map_values(|l: HunkLineModel| l.text);
        assert(stexts =~= texts.subrange(r.0, end));
        let region = render_region(body, o, n, r);
        assert(region == seq![header] + stexts);
        assert(marker_line(header));
        assert forall|k: int| 0 <= k < seq![header].len() implies marker_line(#[trigger] seq![header][k]) by {
            assert(seq![header][k] == header);
        }
        lemma_content_of_markers(seq![header]);
        lemma_content_add(seq![header], stexts);
        assert(content_of(region) =~= content_of(stexts));
        // texts[..end] = texts[..lim0] + texts[lim0..r.0] + texts[r.0..end]
        let a = texts.take(lim0);
        let mid = texts.subrange(lim0, r.0);
        assert(texts.take(end) =~= a + mid + stexts);
        lemma_content_add(a + mid, stexts);
        lemma_content_add(a, mid);
        lemma_subseq_refl(content_of(stexts));
        lemma_subseq_widen(content_of(stexts), content_of(mid), content_of(stexts), Seq::empty());
        assert(content_of(mid) + content_of(stexts) + Seq::<Seq<char>>::empty() =~= content_of(mid)
            + content_of(stexts));
        lemma_subseq_concat(
            content_of(render_regions(body, o, n, init)),
            content_of(a),
            content_of(region),
            content_of(mid) + content_of(stexts),
        );
        lemma_content_add(render_regions(body, o, n, init), region);
        assert(content_of(a) + (content_of(mid) + content_of(stexts)) =~= content_of(a)
            + content_of(mid) + content_of(stexts));
    }
}

proof fn lemma_flush_hunk_in_order(st: DiffModel)
    ensures
        is_subseq(content_of(flush_hunk_spec(st).1), content_of(diff_pending(st))),
        flush_hunk_spec(st).0.body.len() == 0,
        flush_hunk_spec(st).0.hunk is None,
{
    let texts = diff_pending(st);
    match st.hunk {
        None => {
            lemma_subseq_empty(content_of(texts));
        },
        Some((o, n)) => {
            if file_is_noise(st) {
                lemma_subseq_empty(content_of(texts));
            } else {
                let rs = keep_ranges(st.body, st.context, st.body.len() as int);
                lemma_changes_survive(st.body, st.context);
                lemma_regions_in_order(st.body, o, n, rs);
                let lim = regions_reach(st.body, rs);
                assert(texts =~= texts.take(lim) + texts.skip(lim));
                lemma_content_add(texts.take(lim), texts.skip(lim));
                lemma_subseq_widen(
                    content_of(render_regions(st.body, o, n, rs)),
                    Seq::empty(),
                    content_of(texts.take(lim)),
                    content_of(texts.skip(lim)),
                );
                assert(Seq::<Seq<char>>::empty() + content_of(texts.take(lim)) + content_of(
                    texts.skip(lim),
                ) =~= content_of(texts));
            }
        },
    }
}

proof fn lemma_flush_file_in_order(st: DiffModel)
    ensures
        is_subseq(content_of(flush_file_spec(st).1), content_of(diff_pending(st))),
        flush_file_spec(st).0.body.len() == 0,
        flush_file_spec(st).0.hunk is None,
{
    lemma_flush_hunk_in_order(st);
    let (s1, o1) = flush_hunk_spec(st);
    match s1.file {
        None => {},
        Some(f) => {
            let note = file_note(f);
            assert forall|k: int| 0 <= k < note.len() implies marker_line(#[trigger] note[k]) by {
                if f.noise {
                    assert(note[k] == skip_note(f));
                    assert(is_file_note(skip_note(f)));
                } else {
                    assert(note[k] == binary_note(f));
                    assert(is_file_note(binary_note(f)));
                }
            }
            lemma_content_of_markers(note);
            lemma_content_add(o1, note);
            assert(content_of(o1) + content_of(note) =~= content_of(o1));
        },
    }
}

/// The order goal of one step, from `st` to `r`, writing `o`, on `line`.
pub open spec fn diff_step_ordered(st: DiffModel, r: DiffModel, o: Seq<Seq<char>>, line: Seq<char>) -> bool {
    is_subseq(
        content_of(o) + content_of(diff_pending(r)),
        content_of(diff_pending(st)) + content_of(seq![line]),
    )
}

/// Output `o1`, drawn from what was buffered, then `o2`, drawn from the
/// line; nothing buffered afterwards.
proof fn lemma_diff_flush_then_line(
    st: DiffModel,
    r: DiffModel,
    o1: Seq<Seq<char>>,
    o2: Seq<Seq<char>>,
    line: Seq<char>,
)
    requires
        is_subseq(content_of(o1), content_of(diff_pending(st))),
        o2 == Seq::<Seq<char>>::empty() || o2 == seq![line],
        r.body.len() == 0,
    ensures
        diff_step_ordered(st, r, o1 + o2, line),
{
    let one = seq![line];
    if o2.len() == 0 {
        lemma_subseq_empty(content_of(one));
    } else {
        lemma_subseq_refl(content_of(one));
    }
    assert(content_of(o2) == content_of(Seq::<Seq<char>>::empty()) || content_of(o2) == content_of(one));
    assert(content_of(Seq::<Seq<char>>::empty()) =~= Seq::<Seq<char>>::empty());
    lemma_subseq_concat(content_of(o1), content_of(diff_pending(st)), content_of(o2), content_of(one));
    lemma_content_add(o1, o2);
    assert(diff_pending(r) =~= Seq::<Seq<char>>::empty());
    assert(content_of(o1 + o2) + content_of(diff_pending(r)) =~= content_of(o1) + content_of(o2));
}

/// One step keeps the diff minimizer in order: what it writes, followed by
/// the hunk lines it still buffers, is a subsequence of what it buffered
/// before followed by the new line, counting content lines only (not
/// markers or hunk headers).
pub proof fn lemma_diff_step_in_order(st: DiffModel, line: Seq<char>)
    requires
        diff_inv(st),
    ensures
        diff_inv(diff_on_line_spec(st, line).0),
        diff_step_ordered(st, diff_on_line_spec(st, line).0, diff_on_line_spec(st, line).1, line),
        diff_inv(flush_file_spec(st).0),
        is_subseq(
            content_of(flush_file_spec(st).1) + content_of(diff_pending(flush_file_spec(st).0)),
            content_of(diff_pending(st)),
        ),
{
    let r = diff_on_line_spec(st, line);
    let one = seq![line];
    lemma_flush_file_in_order(st);
    lemma_flush_hunk_in_order(st);
    if diff_git(line) is Some {
        let path = diff_git(line)->0;
        let (s1, o1) = flush_file_spec(st);
        let s2 = DiffModel {
            file: Some(
                FileModel {
                    path,
                    noise: is_noise(path),
                    added: 0,
                    removed: 0,
                    binary: false,
                    header_emitted: false,
                },
            ),
            ..s1
        };
        let (s3, o3) = emit_header_spec(s2, line);
        lemma_diff_flush_then_line(st, r.0, o1, o3, line);
    } else if hunk_header(line) is Some {
        let (s1, o1) = flush_hunk_spec(st);
        lemma_diff_flush_then_line(st, r.0, o1, Seq::empty(), line);
        assert(o1 + Seq::<Seq<char>>::empty() =~= o1);
    } else if st.hunk is Some && is_body_kind(line_kind(line)) {
        assert(diff_pending(r.0) =~= diff_pending(st) + one);
        lemma_content_add(diff_pending(st), one);
        assert(content_of(Seq::<Seq<char>>::empty()) =~= Seq::<Seq<char>>::empty());
        assert(content_of(r.1) + content_of(diff_pending(r.0)) =~= content_of(diff_pending(st))
            + content_of(one));
        lemma_subseq_refl(content_of(diff_pending(st)) + content_of(one));
    } else if st.hunk is Some {
        let (s1, o1) = flush_hunk_spec(st);
        let (s2, o2) = header_line_spec(s1, line);
        lemma_diff_flush_then_line(st, r.0, o1, o2, line);
    } else {
        assert(diff_pending(st) =~= Seq::<Seq<char>>::empty());
        lemma_subseq_empty(content_of(diff_pending(st)));
        assert(content_of(Seq::<Seq<char>>::empty()) =~= Seq::<Seq<char>>::empty());
        lemma_diff_flush_then_line(st, r.0, Seq::empty(), r.1, line);
        assert(Seq::<Seq<char>>::empty() + r.1 =~= r.1);
    }
    let f = flush_file_spec(st);
    assert(diff_pending(f.0) =~= Seq::<Seq<char>>::empty());
    assert(content_of(Seq::<Seq<char>>::empty()) =~= Seq::<Seq<char>>::empty());
    assert(content_of(f.1) + content_of(diff_pending(f.0)) =~= content_of(f.1));
}

} // verus!
