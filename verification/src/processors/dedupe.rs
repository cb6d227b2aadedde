//! Repeated-line compression.
//!
//! Two mechanisms, both bounded in memory:
//!
//! * an *adjacent run* collapses consecutive similar lines into
//!   `[Repeated N times: "..."]`;
//! * a *window* of the last `M` emitted lines catches near-contiguous repeats
//!   (retry loops interleaved with other output) and reports them a few lines
//!   after the last repeat, or when the entry falls out of the window.

use std::collections::VecDeque;

use vstd::prelude::*;
use vstd::string::StringSliceAdditionalSpecFns;
use vstd::utf8::{
    encode_utf8, is_continuation_byte, length_of_first_scalar, pop_first_scalar,
    valid_first_scalar, valid_utf8,
};

use crate::processors::{content_of, lemma_content_add, lemma_content_of_markers, marker_line};
use crate::text::{
    all_space, decimal, digit_char, has_at, is_space, is_subseq, kind_has, lemma_span, span, CharKind, lemma_all_space_trim_empty, lemma_subseq_concat,
    lemma_subseq_empty, lemma_subseq_refl, lemma_subseq_widen, lines_view, push_decimal,
    push_range, push_str, string_of, trim, trim_bounds, chars_of,
};

verus! {

// ---------------------------------------------------------------------------
// The comparison key
// ---------------------------------------------------------------------------

/// `u8::is_ascii_whitespace`: space, tab, newline, form feed, carriage return.
pub open spec fn is_ws_byte(b: u8) -> bool {
    b == 0x20 || b == 0x09 || b == 0x0a || b == 0x0c || b == 0x0d
}

pub open spec fn is_digit_byte(b: u8) -> bool {
    0x30 <= b && b <= 0x39
}

/// Identifier bytes: ASCII letters, digits and underscore.
pub open spec fn is_word_byte(b: u8) -> bool {
    is_digit_byte(b) || (0x41 <= b && b <= 0x5a) || (0x61 <= b && b <= 0x7a) || b == 0x5f
}

/// Which run a byte belongs to.
pub enum ByteKind {
    Ws,
    Word,
    Digit,
}

pub open spec fn byte_has(k: ByteKind, b: u8) -> bool {
    match k {
        ByteKind::Ws => is_ws_byte(b),
        ByteKind::Word => is_word_byte(b),
        ByteKind::Digit => is_digit_byte(b),
    }
}

/// Length of the run of `k` bytes at the start of `b`.
pub open spec fn run_of(b: Seq<u8>, k: ByteKind) -> nat
    decreases b.len(),
{
    if b.len() > 0 && byte_has(k, b[0]) {
        1 + run_of(b.drop_first(), k)
    } else {
        0
    }
}

/// Alphanumeric runs at least this long that contain a digit are ids.
pub const ID_LEN: usize = 8;

pub open spec fn has_digit(w: Seq<u8>) -> bool {
    exists|i: int| 0 <= i < w.len() && is_digit_byte(#[trigger] w[i])
}

/// Each run of digits becomes `#`.
pub open spec fn mask_digits(w: Seq<u8>) -> Seq<u8>
    decreases w.len(),
{
    if w.len() == 0 {
        Seq::empty()
    } else if is_digit_byte(w[0]) {
        proof {
            lemma_run_bound(w, ByteKind::Digit);
        }
        seq![0x23u8] + mask_digits(w.skip(run_of(w, ByteKind::Digit) as int))
    } else {
        seq![w[0]] + mask_digits(w.skip(1))
    }
}

/// How an identifier run appears in the key.
pub open spec fn word_key(w: Seq<u8>, fuzzy: bool) -> Seq<u8> {
    if !fuzzy {
        w
    } else if has_digit(w) && w.len() >= ID_LEN {
        seq![0x23u8]
    } else {
        mask_digits(w)
    }
}

/// The key of the trimmed text `b`: whitespace runs become one space,
/// identifier runs become their [`word_key`], other bytes stay.
pub open spec fn key_of(b: Seq<u8>, fuzzy: bool) -> Seq<u8>
    decreases b.len(),
{
    if b.len() == 0 {
        Seq::empty()
    } else if is_ws_byte(b[0]) {
        proof {
            lemma_run_bound(b, ByteKind::Ws);
        }
        seq![0x20u8] + key_of(b.skip(run_of(b, ByteKind::Ws) as int), fuzzy)
    } else if is_word_byte(b[0]) {
        proof {
            lemma_run_bound(b, ByteKind::Word);
        }
        let n = run_of(b, ByteKind::Word) as int;
        word_key(b.take(n), fuzzy) + key_of(b.skip(n), fuzzy)
    } else {
        seq![b[0]] + key_of(b.skip(1), fuzzy)
    }
}

/// Leading ASCII whitespace.
pub open spec fn lead_ws(b: Seq<u8>) -> nat {
    run_of(b, ByteKind::Ws)
}

/// Trailing ASCII whitespace.
pub open spec fn trail_ws(b: Seq<u8>) -> nat
    decreases b.len(),
{
    if b.len() > 0 && is_ws_byte(b.last()) {
        1 + trail_ws(b.drop_last())
    } else {
        0
    }
}

/// The comparison key of a line's bytes.
///
/// Leading and trailing whitespace is dropped and inner runs collapse to one
/// space, so indentation does not matter. With `fuzzy` on, digit runs become
/// `#` and identifier runs of at least [`ID_LEN`] bytes that contain a digit
/// collapse to `#` entirely, which lets `attempt=41` fold with `attempt=42`
/// and one request id fold with the next.
pub open spec fn normalize_spec(b: Seq<u8>, fuzzy: bool) -> Seq<u8> {
    if lead_ws(b) == b.len() {
        Seq::empty()
    } else {
        key_of(b.subrange(lead_ws(b) as int, b.len() - trail_ws(b)), fuzzy)
    }
}

pub proof fn lemma_run_bound(b: Seq<u8>, k: ByteKind)
    ensures
        run_of(b, k) <= b.len(),
        b.len() > 0 && byte_has(k, b[0]) ==> run_of(b, k) >= 1,
    decreases b.len(),
{
    if b.len() > 0 && byte_has(k, b[0]) {
        lemma_run_bound(b.drop_first(), k);
    }
}

proof fn lemma_run_of(b: Seq<u8>, i: int, j: int, k: ByteKind)
    requires
        0 <= i <= j <= b.len(),
        forall|t: int| i <= t < j ==> byte_has(k, #[trigger] b[t]),
        j == b.len() || !byte_has(k, b[j]),
    ensures
        run_of(b.skip(i), k) == j - i,
    decreases j - i,
{
    if i < j {
        assert(b.skip(i).drop_first() =~= b.skip(i + 1));
        lemma_run_of(b, i + 1, j, k);
    } else if j < b.len() {
        assert(b.skip(i)[0] == b[j]);
    }
}

proof fn lemma_trail_ws(b: Seq<u8>, k: int)
    requires
        0 <= k <= b.len(),
        forall|t: int| b.len() - k <= t < b.len() ==> is_ws_byte(#[trigger] b[t]),
        k == b.len() || !is_ws_byte(b[b.len() - k - 1]),
    ensures
        trail_ws(b) == k,
    decreases k,
{
    if k > 0 {
        let t = b.drop_last();
        assert forall|x: int| t.len() - (k - 1) <= x < t.len() implies is_ws_byte(#[trigger] t[x]) by {
            assert(t[x] == b[x]);
        }
        if k < b.len() {
            assert(t[t.len() - (k - 1) - 1] == b[b.len() - k - 1]);
        }
        lemma_trail_ws(t, k - 1);
    }
}

fn ws_byte(b: u8) -> (r: bool)
    ensures
        r == is_ws_byte(b),
{
    b == 0x20 || b == 0x09 || b == 0x0a || b == 0x0c || b == 0x0d
}

fn digit_byte(b: u8) -> (r: bool)
    ensures
        r == is_digit_byte(b),
{
    0x30 <= b && b <= 0x39
}

fn word_byte(b: u8) -> (r: bool)
    ensures
        r == is_word_byte(b),
{
    (0x30 <= b && b <= 0x39) || (0x41 <= b && b <= 0x5a) || (0x61 <= b && b <= 0x7a) || b == 0x5f
}

fn byte_test(k: &ByteKind, b: u8) -> (r: bool)
    ensures
        r == byte_has(*k, b),
{
    match k {
        ByteKind::Ws => ws_byte(b),
        ByteKind::Word => word_byte(b),
        ByteKind::Digit => digit_byte(b),
    }
}

/// End of the run of `k` bytes that starts at `i` and stops before `end`.
fn run_end(b: &[u8], i: usize, end: usize, k: ByteKind) -> (j: usize)
    requires
        i <= end <= b@.len(),
    ensures
        i <= j <= end,
        forall|t: int| i <= t < j ==> byte_has(k, #[trigger] b@[t]),
        j == end || !byte_has(k, b@[j as int]),
{
    let mut j = i;
    while j < end && byte_test(&k, b[j])
        invariant
            i <= j <= end <= b@.len(),
            forall|t: int| i <= t < j ==> byte_has(k, #[trigger] b@[t]),
        decreases end - j,
    {
        j = j + 1;
    }
    j
}

/// Appends `mask_digits(b[i..j])`.
fn push_masked(out: &mut Vec<u8>, b: &[u8], i: usize, j: usize)
    requires
        i <= j <= b@.len(),
        forall|t: int| i <= t < j ==> is_word_byte(#[trigger] b@[t]),
    ensures
        final(out)@ == old(out)@ + mask_digits(b@.subrange(i as int, j as int)),
{
    let ghost w = b@.subrange(i as int, j as int);
    let ghost base = old(out)@;
    let mut p = i;
    proof {
        assert(w.skip(0) =~= w);
    }
    while p < j
        invariant
            i <= p <= j <= b@.len(),
            w == b@.subrange(i as int, j as int),
            mask_digits(w) == out@.subrange(base.len() as int, out@.len() as int) + mask_digits(
                w.skip(p - i),
            ),
            base.len() <= out@.len(),
            out@.subrange(0, base.len() as int) == base,
        decreases j - p,
    {
        let ghost before = out@;
        let ghost rest = w.skip(p - i);
        if digit_byte(b[p]) {
            let q = run_end(b, p, j, ByteKind::Digit);
            out.push(0x23u8);
            proof {
                assert(rest[0] == b@[p as int]);
                lemma_run_of(w, p - i, q - i, ByteKind::Digit);
                assert(rest.skip(run_of(rest, ByteKind::Digit) as int) =~= w.skip(q - i));
                assert(out@.subrange(base.len() as int, out@.len() as int) =~= before.subrange(
                    base.len() as int,
                    before.len() as int,
                ).push(0x23u8));
            }
            p = q;
        } else {
            out.push(b[p]);
            proof {
                assert(rest[0] == b@[p as int]);
                assert(rest.skip(1) =~= w.skip(p + 1 - i));
                assert(out@.subrange(base.len() as int, out@.len() as int) =~= before.subrange(
                    base.len() as int,
                    before.len() as int,
                ).push(b@[p as int]));
            }
            p = p + 1;
        }
        proof {
            assert(out@.subrange(0, base.len() as int) =~= before.subrange(0, base.len() as int));
        }
    }
    proof {
        assert(w.skip(j - i) =~= Seq::<u8>::empty());
        assert(out@ =~= out@.subrange(0, base.len() as int) + out@.subrange(
            base.len() as int,
            out@.len() as int,
        ));
    }
}

/// Build the comparison key for a line ([`normalize_spec`] of its bytes).
///
/// One pass over the bytes, no UTF-8 decoding: this runs on every line of the
/// input. Only ASCII bytes are rewritten, so the key is still valid UTF-8.
pub fn normalize(line: &str, fuzzy: bool) -> (key: Vec<u8>)
    ensures
        key@ == normalize_spec(line.spec_bytes(), fuzzy),
        valid_utf8(key@),
{
    let key = key_bytes(line, fuzzy);
    proof {
        lemma_key_is_text(line@, fuzzy);
    }
    key
}

fn key_bytes(line: &str, fuzzy: bool) -> (key: Vec<u8>)
    ensures
        key@ == normalize_spec(line.spec_bytes(), fuzzy),
{
    let b = line.as_bytes();
    let ghost bs = b@;
    let n = b.len();
    let start = run_end(b, 0, n, ByteKind::Ws);
    proof {
        lemma_run_of(bs, 0, start as int, ByteKind::Ws);
        assert(bs.skip(0) =~= bs);
    }
    if start == n {
        return Vec::new();
    }
    let mut end = n;
    while end > start && ws_byte(b[end - 1])
        invariant
            start < n == bs.len(),
            b@ == bs,
            start <= end <= n,
            forall|t: int| end <= t < n ==> is_ws_byte(#[trigger] bs[t]),
        decreases end,
    {
        end = end - 1;
    }
    proof {
        // `bs[start]` is not whitespace, so the trailing run stops after it.
        assert(end > start);
        lemma_trail_ws(bs, n - end);
    }
    let ghost t = bs.subrange(start as int, end as int);
    let mut out: Vec<u8> = Vec::new();
    let mut p = start;
    proof {
        assert(t.skip(0) =~= t);
    }
    while p < end
        invariant
            start <= p <= end <= n == bs.len(),
            b@ == bs,
            t == bs.subrange(start as int, end as int),
            key_of(t, fuzzy) == out@ + key_of(t.skip(p - start), fuzzy),
        decreases end - p,
    {
        let ghost rest = t.skip(p - start);
        let ghost before = out@;
        proof {
            assert(rest[0] == bs[p as int]);
        }
        if ws_byte(b[p]) {
            let q = run_end(b, p, end, ByteKind::Ws);
            out.push(0x20u8);
            proof {
                lemma_run_of(t, p - start, q - start, ByteKind::Ws);
                assert(rest.skip(run_of(rest, ByteKind::Ws) as int) =~= t.skip(q - start));
                assert(out@ =~= before + seq![0x20u8]);
            }
            p = q;
        } else if word_byte(b[p]) {
            let q = run_end(b, p, end, ByteKind::Word);
            proof {
                lemma_run_of(t, p - start, q - start, ByteKind::Word);
                assert(rest.take(q - p) =~= bs.subrange(p as int, q as int));
                assert(rest.skip(q - p) =~= t.skip(q - start));
            }
            let mut digits = false;
            let mut x = p;
            while x < q
                invariant
                    p <= x <= q <= bs.len(),
                    b@ == bs,
                    digits == exists|y: int| p <= y < x && is_digit_byte(#[trigger] bs[y]),
                decreases q - x,
            {
                if digit_byte(b[x]) {
                    digits = true;
                }
                x = x + 1;
            }
            proof {
                let w = bs.subrange(p as int, q as int);
                if digits {
                    let y = choose|y: int| p <= y < q && is_digit_byte(#[trigger] bs[y]);
                    assert(w[y - p] == bs[y]);
                }
                if has_digit(w) {
                    let y = choose|y: int| 0 <= y < w.len() && is_digit_byte(#[trigger] w[y]);
                    assert(w[y] == bs[p + y]);
                }
            }
            if !fuzzy {
                let mut x = p;
                while x < q
                    invariant
                        p <= x <= q <= bs.len(),
                        b@ == bs,
                        out@ == before + bs.subrange(p as int, x as int),
                    decreases q - x,
                {
                    out.push(b[x]);
                    proof {
                        assert(bs.subrange(p as int, x + 1) =~= bs.subrange(p as int, x as int).push(
                            bs[x as int],
                        ));
                    }
                    x = x + 1;
                }
            } else if digits && q - p >= ID_LEN {
                out.push(0x23u8);
                proof {
                    assert(out@ =~= before + seq![0x23u8]);
                }
            } else {
                push_masked(&mut out, b, p, q);
            }
            p = q;
        } else {
            out.push(b[p]);
            proof {
                assert(rest.skip(1) =~= t.skip(p + 1 - start));
                assert(out@ =~= before + seq![bs[p as int]]);
            }
            p = p + 1;
        }
    }
    proof {
        assert(t.skip(end - start) =~= Seq::<u8>::empty());
        assert(out@ =~= out@ + Seq::<u8>::empty());
    }
    out
}

// ---------------------------------------------------------------------------
// Notes
// ---------------------------------------------------------------------------

/// Lines shorter than this (as keys) only fold when adjacent: the window is
/// too likely to swallow meaningful short repeats such as `}` or `---`.
pub const MIN_WINDOW_LEN: usize = 24;

/// Longest prefix of the sample line kept inside a note.
pub const SAMPLE_LEN: usize = 120;

/// Emitted lines to wait after the last repeat before reporting a windowed
/// duplicate, so the note lands near the lines it describes.
pub const NOTE_DELAY: usize = 3;

/// The example line shown in a note: trimmed, and cut to [`SAMPLE_LEN`]
/// characters with `...` when longer.
pub open spec fn sample_spec(line: Seq<char>) -> Seq<char> {
    let t = trim(line);
    if t.len() <= SAMPLE_LEN {
        t
    } else {
        t.take(SAMPLE_LEN as int) + "..."@
    }
}

/// `[Repeated N times: "..."]`
pub open spec fn repeat_note(count: nat, original: Seq<char>) -> Seq<char> {
    "[Repeated "@ + decimal(count) + " times: \""@ + sample_spec(original) + "\"]"@
}

/// `[+N more occurrences of: "..."]`
pub open spec fn extra_note(extra: nat, sample: Seq<char>) -> Seq<char> {
    "[+"@ + decimal(extra) + " more occurrences of: \""@ + sample_spec(sample) + "\"]"@
}

fn sample(line: &str) -> (s: Vec<char>)
    ensures
        s@ == sample_spec(line@),
{
    let v = chars_of(line);
    let (a, b) = trim_bounds(&v);
    let mut out: Vec<char> = Vec::new();
    if b - a <= SAMPLE_LEN {
        push_range(&mut out, &v, a, b);
        proof {
            assert(out@ =~= sample_spec(line@));
        }
    } else {
        push_range(&mut out, &v, a, a + SAMPLE_LEN);
        push_str(&mut out, "...");
        proof {
            assert(out@ =~= sample_spec(line@));
        }
    }
    out
}

fn repeat_note_text(count: usize, original: &str) -> (s: String)
    ensures
        s@ == repeat_note(count as nat, original@),
{
    let mut v: Vec<char> = Vec::new();
    push_str(&mut v, "[Repeated ");
    push_decimal(&mut v, count);
    push_str(&mut v, " times: \"");
    let sm = sample(original);
    let ghost before = v@;
    let n = sm.len();
    push_range(&mut v, &sm, 0, n);
    push_str(&mut v, "\"]");
    proof {
        assert(sm@.subrange(0, n as int) =~= sm@);
        assert(v@ =~= repeat_note(count as nat, original@));
    }
    string_of(v.as_slice())
}

fn extra_note_text(extra: usize, sample_line: &str) -> (s: String)
    ensures
        s@ == extra_note(extra as nat, sample_line@),
{
    let mut v: Vec<char> = Vec::new();
    push_str(&mut v, "[+");
    push_decimal(&mut v, extra);
    push_str(&mut v, " more occurrences of: \"");
    let sm = sample(sample_line);
    let n = sm.len();
    push_range(&mut v, &sm, 0, n);
    push_str(&mut v, "\"]");
    proof {
        assert(sm@.subrange(0, n as int) =~= sm@);
        assert(v@ =~= extra_note(extra as nat, sample_line@));
    }
    string_of(v.as_slice())
}

// ---------------------------------------------------------------------------
// The deduplicator
// ---------------------------------------------------------------------------

/// An open run of adjacent lines with one key.
pub struct RunModel {
    pub original: Seq<char>,
    pub key: Seq<u8>,
    pub count: nat,
}

/// A remembered line and the repeats of it seen since.
pub struct EntryModel {
    pub key: Seq<u8>,
    pub sample: Seq<char>,
    pub extra: nat,
    pub last_hit: nat,
}

/// The state of a [`Deduper`].
pub struct DedupeModel {
    pub run: Option<RunModel>,
    pub window: Seq<EntryModel>,
    pub capacity: nat,
    pub fuzzy: bool,
    /// Count of lines emitted so far, used to place windowed-duplicate notes.
    pub seq: nat,
    pub last_blank: bool,
}

/// `a + 1`, saturating at `usize::MAX`.
pub open spec fn sat_inc(a: nat) -> nat {
    if a < usize::MAX {
        a + 1
    } else {
        a
    }
}

/// The single exit point for output, so blank runs stay collapsed even when
/// the lines between them were suppressed.
pub open spec fn emit_spec(st: DedupeModel, line: Seq<char>) -> (DedupeModel, Seq<Seq<char>>) {
    let blank = all_space(line);
    if blank && st.last_blank {
        (st, Seq::empty())
    } else {
        (DedupeModel { last_blank: blank, seq: sat_inc(st.seq), ..st }, seq![line])
    }
}

/// Emit `lines` one after the other.
pub open spec fn emit_all(st: DedupeModel, lines: Seq<Seq<char>>) -> (DedupeModel, Seq<Seq<char>>)
    decreases lines.len(),
{
    if lines.len() == 0 {
        (st, Seq::empty())
    } else {
        let (s1, o1) = emit_all(st, lines.drop_last());
        let (s2, o2) = emit_spec(s1, lines.last());
        (s2, o1 + o2)
    }
}

/// A windowed duplicate whose repeats have gone quiet.
pub open spec fn is_stale(e: EntryModel, seq: nat) -> bool {
    e.extra > 0 && seq >= e.last_hit + NOTE_DELAY
}

pub open spec fn stale_notes(w: Seq<EntryModel>, seq: nat) -> Seq<Seq<char>>
    decreases w.len(),
{
    if w.len() == 0 {
        Seq::empty()
    } else {
        stale_notes(w.drop_last(), seq) + if is_stale(w.last(), seq) {
            seq![extra_note(w.last().extra, w.last().sample)]
        } else {
            Seq::empty()
        }
    }
}

pub open spec fn reset_one(e: EntryModel, seq: nat) -> EntryModel {
    if is_stale(e, seq) {
        EntryModel { extra: 0, ..e }
    } else {
        e
    }
}

/// Report windowed duplicates once their repeats have gone quiet.
pub open spec fn drain_spec(st: DedupeModel) -> (DedupeModel, Seq<Seq<char>>) {
    let w = Seq::new(st.window.len(), |k: int| reset_one(st.window[k], st.seq));
    emit_all(DedupeModel { window: w, ..st }, stale_notes(st.window, st.seq))
}

/// Drop entries from the front of the window until there is room, reporting
/// the repeats of each one dropped.
pub open spec fn evict_spec(st: DedupeModel) -> (DedupeModel, Seq<Seq<char>>)
    decreases st.window.len(),
{
    if st.window.len() > 0 && st.window.len() >= st.capacity {
        let e = st.window[0];
        let s1 = DedupeModel { window: st.window.drop_first(), ..st };
        let (s2, o2) = if e.extra > 0 {
            emit_spec(s1, extra_note(e.extra, e.sample))
        } else {
            (s1, Seq::empty())
        };
        let (s3, o3) = evict_spec(s2);
        (s3, o2 + o3)
    } else {
        (st, Seq::empty())
    }
}

/// The number of characters a key encodes: its bytes that do not continue a
/// UTF-8 sequence.
pub open spec fn key_chars(k: Seq<u8>) -> nat
    decreases k.len(),
{
    if k.len() == 0 {
        0
    } else {
        key_chars(k.drop_last()) + if 0x80 <= k.last() < 0xc0 {
            0nat
        } else {
            1nat
        }
    }
}

fn key_char_count(k: &Vec<u8>) -> (n: usize)
    ensures
        n == key_chars(k@),
{
    let mut n: usize = 0;
    let mut i: usize = 0;
    while i < k.len()
        invariant
            i <= k@.len(),
            n == key_chars(k@.take(i as int)),
            n <= i,
        decreases k@.len() - i,
    {
        proof {
            assert(k@.take(i + 1).drop_last() =~= k@.take(i as int));
        }
        if !(0x80 <= k[i] && k[i] < 0xc0) {
            n = n + 1;
        }
        i = i + 1;
    }
    proof {
        assert(k@.take(k@.len() as int) =~= k@);
    }
    n
}

/// Remember a line in the window; short keys are not remembered.
pub open spec fn window_insert_spec(st: DedupeModel, key: Seq<u8>, original: Seq<char>) -> (
    DedupeModel,
    Seq<Seq<char>>,
) {
    if key_chars(key) < MIN_WINDOW_LEN {
        (st, Seq::empty())
    } else {
        let (s1, o1) = evict_spec(st);
        (
            DedupeModel {
                window: s1.window.push(
                    EntryModel { key, sample: original, extra: 0, last_hit: s1.seq },
                ),
                ..s1
            },
            o1,
        )
    }
}

/// Emit the open run: itself when it has one line, a note when it has more;
/// a blank run collapses to one blank line.
pub open spec fn flush_run_spec(st: DedupeModel) -> (DedupeModel, Seq<Seq<char>>) {
    match st.run {
        None => (st, Seq::empty()),
        Some(run) => {
            let s0 = DedupeModel { run: None, ..st };
            if run.key.len() == 0 {
                emit_spec(s0, Seq::empty())
            } else {
                let (s1, o1) = drain_spec(s0);
                let line = if run.count == 1 {
                    run.original
                } else {
                    repeat_note(run.count, run.original)
                };
                let (s2, o2) = emit_spec(s1, line);
                let (s3, o3) = window_insert_spec(s2, run.key, run.original);
                (s3, o1 + o2 + o3)
            }
        },
    }
}

/// The most recent window entry with this key.
pub open spec fn last_match(w: Seq<EntryModel>, key: Seq<u8>) -> Option<int>
    decreases w.len(),
{
    if w.len() == 0 {
        None
    } else if w.last().key == key {
        Some(w.len() - 1)
    } else {
        last_match(w.drop_last(), key)
    }
}

pub proof fn lemma_last_match(w: Seq<EntryModel>, key: Seq<u8>)
    ensures
        last_match(w, key) matches Some(i) ==> 0 <= i < w.len() && w[i].key == key,
    decreases w.len(),
{
    if w.len() > 0 && w.last().key != key {
        lemma_last_match(w.drop_last(), key);
    }
}

/// Count a repeat of a windowed line and move it to the back, so hot lines
/// stay in the window. Returns whether the line was absorbed.
pub open spec fn bump_spec(st: DedupeModel, key: Seq<u8>) -> (DedupeModel, bool) {
    if key_chars(key) < MIN_WINDOW_LEN {
        (st, false)
    } else {
        match last_match(st.window, key) {
            None => (st, false),
            Some(i) => {
                let e = st.window[i];
                (
                    DedupeModel {
                        window: st.window.remove(i).push(
                            EntryModel { extra: sat_inc(e.extra), last_hit: st.seq, ..e },
                        ),
                        ..st
                    },
                    true,
                )
            },
        }
    }
}

/// One input line.
pub open spec fn dedupe_on_line_spec(st: DedupeModel, line: Seq<char>) -> (
    DedupeModel,
    Seq<Seq<char>>,
) {
    let key = normalize_spec(encode_utf8(line), st.fuzzy);
    if st.run is Some && st.run->0.key == key {
        (
            DedupeModel { run: Some(RunModel { count: sat_inc(st.run->0.count), ..st.run->0 }), ..st },
            Seq::empty(),
        )
    } else {
        let (s1, o1) = flush_run_spec(st);
        let (s2, hit) = bump_spec(s1, key);
        if hit {
            (s2, o1)
        } else {
            (DedupeModel { run: Some(RunModel { original: line, key, count: 1 }), ..s2 }, o1)
        }
    }
}

/// Report every windowed duplicate still pending, front to back.
pub open spec fn drain_all_spec(st: DedupeModel) -> (DedupeModel, Seq<Seq<char>>)
    decreases st.window.len(),
{
    if st.window.len() > 0 {
        let e = st.window[0];
        let s1 = DedupeModel { window: st.window.drop_first(), ..st };
        let (s2, o2) = if e.extra > 0 {
            emit_spec(s1, extra_note(e.extra, e.sample))
        } else {
            (s1, Seq::empty())
        };
        let (s3, o3) = drain_all_spec(s2);
        (s3, o2 + o3)
    } else {
        (st, Seq::empty())
    }
}

/// End of input: flush the open run, then every pending windowed note.
pub open spec fn dedupe_finish_spec(st: DedupeModel) -> (DedupeModel, Seq<Seq<char>>) {
    let (s1, o1) = flush_run_spec(st);
    let (s2, o2) = drain_all_spec(s1);
    (s2, o1 + o2)
}

struct RepeatRun {
    original: String,
    key: Vec<u8>,
    count: usize,
}

struct WindowEntry {
    key: Vec<u8>,
    sample: String,
    extra: usize,
    last_hit: usize,
}

/// Take the entry at `i` out of the window.
fn take_entry(w: &mut VecDeque<WindowEntry>, i: usize) -> (e: WindowEntry)
    requires
        i < old(w)@.len(),
    ensures
        e == old(w)@[i as int],
        final(w)@ == old(w)@.remove(i as int),
{
    match w.remove(i) {
        Some(e) => e,
        None => {
            proof {
                assert(false);
            }
            WindowEntry { key: Vec::new(), sample: String::new(), extra: 0, last_hit: 0 }
        },
    }
}

spec fn entry_view(e: WindowEntry) -> EntryModel {
    EntryModel { key: e.key@, sample: e.sample@, extra: e.extra as nat, last_hit: e.last_hit as nat }
}

spec fn window_view(w: Seq<WindowEntry>) -> Seq<EntryModel> {
    w.map_values(|e: WindowEntry| entry_view(e))
}

/// Collapses repeated log lines.
pub struct Deduper {
    run: Option<RepeatRun>,
    window: VecDeque<WindowEntry>,
    capacity: usize,
    fuzzy: bool,
    seq: usize,
    last_blank: bool,
}

impl View for Deduper {
    type V = DedupeModel;

    closed spec fn view(&self) -> DedupeModel {
        DedupeModel {
            run: match self.run {
                Some(r) => Some(RunModel { original: r.original@, key: r.key@, count: r.count as nat }),
                None => None,
            },
            window: window_view(self.window@),
            capacity: self.capacity as nat,
            fuzzy: self.fuzzy,
            seq: self.seq as nat,
            last_blank: self.last_blank,
        }
    }
}

fn bytes_eq(a: &Vec<u8>, b: &Vec<u8>) -> (r: bool)
    ensures
        r == (a@ == b@),
{
    if a.len() != b.len() {
        return false;
    }
    let mut i: usize = 0;
    while i < a.len()
        invariant
            a@.len() == b@.len(),
            i <= a@.len(),
            forall|j: int| 0 <= j < i ==> a@[j] == b@[j],
        decreases a@.len() - i,
    {
        if a[i] != b[i] {
            return false;
        }
        i = i + 1;
    }
    proof {
        assert(a@ =~= b@);
    }
    true
}

fn is_blank(line: &str) -> (b: bool)
    ensures
        b == all_space(line@),
{
    let v = chars_of(line);
    let (a, b) = trim_bounds(&v);
    proof {
        lemma_all_space_trim_empty(line@);
    }
    a == b
}

impl Deduper {
    /// `fuzzy` folds lines that differ only in their numbers and ids, which
    /// is what makes retry storms and progress polling collapse; turn it off
    /// to require byte-identical text. A capacity of 0 is taken as 1.
    pub fn new(capacity: usize, fuzzy: bool) -> (d: Self)
        ensures
            d@ == (DedupeModel {
                run: None,
                window: Seq::empty(),
                capacity: if capacity == 0 {
                    1
                } else {
                    capacity as nat
                },
                fuzzy,
                seq: 0,
                last_blank: false,
            }),
    {
        let d = Deduper {
            run: None,
            window: VecDeque::new(),
            capacity: if capacity == 0 {
                1
            } else {
                capacity
            },
            fuzzy,
            seq: 0,
            last_blank: false,
        };
        proof {
            assert(d@.window =~= Seq::<EntryModel>::empty());
        }
        d
    }

    fn emit(&mut self, line: String, out: &mut Vec<String>)
        ensures
            final(self)@ == emit_spec(old(self)@, line@).0,
            final(self)@.capacity == old(self)@.capacity,
            lines_view(final(out)@) == lines_view(old(out)@) + emit_spec(old(self)@, line@).1,
    {
        let blank = is_blank(line.as_str());
        if blank && self.last_blank {
            proof {
                assert(lines_view(out@) =~= lines_view(out@) + Seq::<Seq<char>>::empty());
            }
            return;
        }
        self.last_blank = blank;
        self.seq = self.seq.saturating_add(1);
        let ghost l = line@;
        let ghost before = lines_view(out@);
        out.push(line);
        proof {
            assert(lines_view(out@) =~= before + seq![l]);
        }
    }

    /// Report windowed duplicates once their repeats have gone quiet.
    fn drain_stale_notes(&mut self, out: &mut Vec<String>)
        ensures
            final(self)@ == drain_spec(old(self)@).0,
            final(self)@.capacity == old(self)@.capacity,
            lines_view(final(out)@) == lines_view(old(out)@) + drain_spec(old(self)@).1,
    {
        let ghost st0 = self@;
        let ghost w0 = st0.window;
        let seq = self.seq;
        let mut notes: Vec<String> = Vec::new();
        let mut i: usize = 0;
        proof {
            assert(w0.take(0) =~= Seq::<EntryModel>::empty());
            assert(lines_view(notes@) =~= Seq::<Seq<char>>::empty());
        }
        while i < self.window.len()
            invariant
                self.window@.len() == w0.len(),
                i <= w0.len(),
                seq == self.seq,
                self@ == (DedupeModel { window: self@.window, ..st0 }),
                w0 == st0.window,
                seq as nat == st0.seq,
                forall|k: int| 0 <= k < i ==> #[trigger] self@.window[k] == reset_one(w0[k], st0.seq),
                forall|k: int| i <= k < w0.len() ==> #[trigger] self@.window[k] == w0[k],
                lines_view(notes@) == stale_notes(w0.take(i as int), st0.seq),
            decreases w0.len() - i,
        {
            proof {
                assert(self@.window[i as int] == w0[i as int]);
                assert(w0.take(i + 1).drop_last() =~= w0.take(i as int));
                assert(w0.take(i + 1).last() == w0[i as int]);
            }
            let stale = self.window[i].extra > 0 && seq.saturating_sub(self.window[i].last_hit)
                >= NOTE_DELAY;
            if stale {
                let note = extra_note_text(self.window[i].extra, self.window[i].sample.as_str());
                let ghost nb = notes@;
                notes.push(note);
                proof {
                    assert(lines_view(notes@) =~= lines_view(nb).push(note@));
                }
                let ghost wb = self.window@;
                let mut e = take_entry(&mut self.window, i);
                e.extra = 0;
                self.window.insert(i, e);
                proof {
                    assert(self.window@ =~= wb.update(i as int, e));
                    assert(self@.window =~= window_view(wb).update(i as int, entry_view(e)));
                }
            } else {
                proof {
                    assert(lines_view(notes@) =~= stale_notes(w0.take(i + 1), st0.seq));
                }
            }
            i = i + 1;
        }
        let ghost st_reset = DedupeModel {
            window: Seq::new(w0.len(), |k: int| reset_one(w0[k], st0.seq)),
            ..st0
        };
        let ghost nv = lines_view(notes@);
        let ghost base = lines_view(out@);
        proof {
            assert(self@.window =~= st_reset.window);
            assert(self@ == st_reset);
            assert(w0.take(w0.len() as int) =~= w0);
            assert(nv.take(0) =~= Seq::<Seq<char>>::empty());
            assert(lines_view(out@) =~= base + Seq::<Seq<char>>::empty());
        }
        let mut j: usize = 0;
        while j < notes.len()
            invariant
                j <= notes@.len(),
                nv == lines_view(notes@),
                nv == stale_notes(w0, st0.seq),
                self@ == emit_all(st_reset, nv.take(j as int)).0,
                lines_view(out@) == base + emit_all(st_reset, nv.take(j as int)).1,
                self@.capacity == st0.capacity,
                st_reset.capacity == st0.capacity,
            decreases notes@.len() - j,
        {
            let note = notes[j].clone();
            proof {
                assert(nv.take(j + 1).drop_last() =~= nv.take(j as int));
                assert(nv.take(j + 1).last() == note@);
            }
            let ghost ob = lines_view(out@);
            self.emit(note, out);
            proof {
                let (s1, o1) = emit_all(st_reset, nv.take(j as int));
                assert(lines_view(out@) =~= base + (o1 + emit_spec(s1, note@).1));
            }
            j = j + 1;
        }
        proof {
            assert(nv.take(notes@.len() as int) =~= nv);
        }
    }

    /// Drop entries from the front of the window until there is room.
    fn evict(&mut self, out: &mut Vec<String>)
        ensures
            final(self)@ == evict_spec(old(self)@).0,
            lines_view(final(out)@) == lines_view(old(out)@) + evict_spec(old(self)@).1,
            final(self)@.capacity == old(self)@.capacity,
    {
        let ghost target = evict_spec(self@);
        let ghost base = lines_view(out@);
        proof {
            assert(lines_view(out@) =~= base + Seq::<Seq<char>>::empty());
        }
        while self.window.len() > 0 && self.window.len() >= self.capacity
            invariant
                self@.capacity == old(self)@.capacity,
                evict_spec(self@).0 == target.0,
                base + target.1 == lines_view(out@) + evict_spec(self@).1,
            decreases self.window@.len(),
        {
            let ghost sb = self@;
            let ghost ob = lines_view(out@);
            let e = take_entry(&mut self.window, 0);
            proof {
                assert(self@.window =~= sb.window.drop_first());
            }
            if e.extra > 0 {
                let note = extra_note_text(e.extra, e.sample.as_str());
                self.emit(note, out);
            } else {
                proof {
                    assert(lines_view(out@) =~= ob + Seq::<Seq<char>>::empty());
                }
            }
            proof {
                assert(base + target.1 =~= lines_view(out@) + evict_spec(self@).1);
            }
        }
        proof {
            assert(lines_view(out@) + Seq::<Seq<char>>::empty() =~= lines_view(out@));
        }
    }

    fn window_insert(&mut self, key: Vec<u8>, original: String, out: &mut Vec<String>)
        ensures
            final(self)@ == window_insert_spec(old(self)@, key@, original@).0,
            lines_view(final(out)@) == lines_view(old(out)@) + window_insert_spec(
                old(self)@,
                key@,
                original@,
            ).1,
            final(self)@.capacity == old(self)@.capacity,
    {
        if key_char_count(&key) < MIN_WINDOW_LEN {
            proof {
                assert(lines_view(out@) =~= lines_view(out@) + Seq::<Seq<char>>::empty());
            }
            return;
        }
        self.evict(out);
        let last_hit = self.seq;
        let ghost wb = self@.window;
        let e = WindowEntry { key, sample: original, extra: 0, last_hit };
        self.window.push_back(e);
        proof {
            assert(self@.window =~= wb.push(entry_view(e)));
        }
    }

    fn flush_run(&mut self, out: &mut Vec<String>)
        ensures
            final(self)@ == flush_run_spec(old(self)@).0,
            lines_view(final(out)@) == lines_view(old(out)@) + flush_run_spec(old(self)@).1,
            final(self)@.capacity == old(self)@.capacity,
    {
        let run = match self.run.take() {
            Some(r) => r,
            None => {
                proof {
                    assert(lines_view(out@) =~= lines_view(out@) + Seq::<Seq<char>>::empty());
                }
                return;
            },
        };
        if run.key.len() == 0 {
            self.emit(String::new(), out);
            return;
        }
        let ghost base = lines_view(out@);
        self.drain_stale_notes(out);
        let ghost o1 = lines_view(out@);
        let line = if run.count == 1 {
            run.original.clone()
        } else {
            repeat_note_text(run.count, run.original.as_str())
        };
        self.emit(line, out);
        let ghost o2 = lines_view(out@);
        self.window_insert(run.key, run.original, out);
        proof {
            assert(lines_view(out@) =~= base + flush_run_spec(old(self)@).1);
        }
    }

    /// The most recent window entry with this key.
    fn find_last(&self, key: &Vec<u8>) -> (r: Option<usize>)
        ensures
            match r {
                Some(i) => last_match(self@.window, key@) == Some(i as int),
                None => last_match(self@.window, key@) is None,
            },
    {
        let mut n = self.window.len();
        let ghost w = self@.window;
        proof {
            assert(w.take(w.len() as int) =~= w);
        }
        while n > 0
            invariant
                n <= w.len(),
                w == self@.window,
                last_match(w, key@) == last_match(w.take(n as int), key@),
            decreases n,
        {
            proof {
                assert(w.take(n as int).drop_last() =~= w.take(n - 1));
                assert(w.take(n as int).last() == w[n - 1]);
            }
            if bytes_eq(&self.window[n - 1].key, key) {
                return Some(n - 1);
            }
            n = n - 1;
        }
        None
    }

    /// Returns true when the line matched a windowed entry and was absorbed.
    fn window_bump(&mut self, key: &Vec<u8>) -> (hit: bool)
        ensures
            (final(self)@, hit) == bump_spec(old(self)@, key@),
    {
        if key_char_count(key) < MIN_WINDOW_LEN {
            return false;
        }
        proof {
            assert(self@.window.take(self@.window.len() as int) =~= self@.window);
        }
        match self.find_last(key) {
            Some(idx) => {
                let ghost wb = self@.window;
                proof {
                    lemma_last_match(wb, key@);
                }
                let mut entry = take_entry(&mut self.window, idx);
                entry.extra = entry.extra.saturating_add(1);
                entry.last_hit = self.seq;
                self.window.push_back(entry);
                proof {
                    assert(self@.window =~= wb.remove(idx as int).push(entry_view(entry)));
                }
                true
            },
            None => false,
        }
    }

    /// One input line; emits what [`dedupe_on_line_spec`] says.
    pub fn on_line(&mut self, line: &str, out: &mut Vec<String>)
        ensures
            final(self)@ == dedupe_on_line_spec(old(self)@, line@).0,
            lines_view(final(out)@) == lines_view(old(out)@) + dedupe_on_line_spec(
                old(self)@,
                line@,
            ).1,
            final(self)@.capacity == old(self)@.capacity,
    {
        let key = normalize(line, self.fuzzy);
        let same = match &self.run {
            Some(run) => bytes_eq(&run.key, &key),
            None => false,
        };
        if same {
            let mut run = self.run.take().unwrap();
            run.count = run.count.saturating_add(1);
            self.run = Some(run);
            proof {
                assert(lines_view(out@) =~= lines_view(out@) + Seq::<Seq<char>>::empty());
            }
            return;
        }
        self.flush_run(out);
        if self.window_bump(&key) {
            return;
        }
        self.run = Some(RepeatRun { original: line.to_owned(), key, count: 1 });
    }

    /// Report every windowed duplicate still pending, front to back.
    fn drain_all(&mut self, out: &mut Vec<String>)
        ensures
            final(self)@ == drain_all_spec(old(self)@).0,
            lines_view(final(out)@) == lines_view(old(out)@) + drain_all_spec(old(self)@).1,
            final(self)@.capacity == old(self)@.capacity,
    {
        let ghost target = drain_all_spec(self@);
        let ghost base = lines_view(out@);
        proof {
            assert(lines_view(out@) =~= base + Seq::<Seq<char>>::empty());
        }
        while self.window.len() > 0
            invariant
                self@.capacity == old(self)@.capacity,
                drain_all_spec(self@).0 == target.0,
                base + target.1 == lines_view(out@) + drain_all_spec(self@).1,
            decreases self.window@.len(),
        {
            let ghost sb = self@;
            let ghost ob = lines_view(out@);
            let e = take_entry(&mut self.window, 0);
            proof {
                assert(self@.window =~= sb.window.drop_first());
            }
            if e.extra > 0 {
                let note = extra_note_text(e.extra, e.sample.as_str());
                self.emit(note, out);
            } else {
                proof {
                    assert(lines_view(out@) =~= ob + Seq::<Seq<char>>::empty());
                }
            }
            proof {
                assert(base + target.1 =~= lines_view(out@) + drain_all_spec(self@).1);
            }
        }
        proof {
            assert(lines_view(out@) + Seq::<Seq<char>>::empty() =~= lines_view(out@));
        }
    }

    /// End of input: flush the open run and every pending note.
    pub fn finish(&mut self, out: &mut Vec<String>)
        ensures
            final(self)@ == dedupe_finish_spec(old(self)@).0,
            lines_view(final(out)@) == lines_view(old(out)@) + dedupe_finish_spec(old(self)@).1,
            final(self)@.capacity == old(self)@.capacity,
    {
        let ghost base = lines_view(out@);
        self.flush_run(out);
        self.drain_all(out);
        proof {
            assert(lines_view(out@) =~= base + dedupe_finish_spec(old(self)@).1);
        }
    }
}


impl crate::processors::LineProcessor for Deduper {
    fn on_line(&mut self, line: &str, out: &mut Vec<String>)
        ensures
            final(self)@ == dedupe_on_line_spec(old(self)@, line@).0,
            lines_view(final(out)@) == lines_view(old(out)@) + dedupe_on_line_spec(
                old(self)@,
                line@,
            ).1,
    {
        Deduper::on_line(self, line, out)
    }

    fn finish(&mut self, out: &mut Vec<String>)
        ensures
            final(self)@ == dedupe_finish_spec(old(self)@).0,
            lines_view(final(out)@) == lines_view(old(out)@) + dedupe_finish_spec(old(self)@).1,
    {
        Deduper::finish(self, out)
    }

    fn name(&self) -> (n: &'static str)
        ensures
            n@ == "dedupe"@,
    {
        "dedupe"
    }
}

// ---------------------------------------------------------------------------
// What every step keeps
// ---------------------------------------------------------------------------

/// The window holds at most `capacity` entries, `capacity` is at least one,
/// and only lines of at least [`MIN_WINDOW_LEN`] characters of key are remembered.
pub open spec fn window_ok(st: DedupeModel) -> bool {
    &&& st.capacity >= 1
    &&& st.window.len() <= st.capacity
    &&& forall|i: int| 0 <= i < st.window.len() ==> #[trigger] key_chars(st.window[i].key) >= MIN_WINDOW_LEN
}

proof fn lemma_emit_keeps_window(st: DedupeModel, line: Seq<char>)
    ensures
        emit_spec(st, line).0.window == st.window,
        emit_spec(st, line).0.capacity == st.capacity,
{
}

proof fn lemma_emit_all_keeps_window(st: DedupeModel, lines: Seq<Seq<char>>)
    ensures
        emit_all(st, lines).0.window == st.window,
        emit_all(st, lines).0.capacity == st.capacity,
    decreases lines.len(),
{
    if lines.len() > 0 {
        lemma_emit_all_keeps_window(st, lines.drop_last());
    }
}

proof fn lemma_evict_room(st: DedupeModel)
    requires
        window_ok(st),
    ensures
        window_ok(evict_spec(st).0),
        evict_spec(st).0.window.len() < st.capacity,
        evict_spec(st).0.capacity == st.capacity,
    decreases st.window.len(),
{
    if st.window.len() > 0 && st.window.len() >= st.capacity {
        let e = st.window[0];
        let s1 = DedupeModel { window: st.window.drop_first(), ..st };
        assert forall|i: int| 0 <= i < s1.window.len() implies #[trigger] key_chars(s1.window[i].key)
            >= MIN_WINDOW_LEN by {
            assert(s1.window[i] == st.window[i + 1]);
        }
        let s2 = if e.extra > 0 {
            emit_spec(s1, extra_note(e.extra, e.sample)).0
        } else {
            s1
        };
        lemma_emit_keeps_window(s1, extra_note(e.extra, e.sample));
        lemma_evict_room(s2);
    }
}

proof fn lemma_flush_keeps_window(st: DedupeModel)
    requires
        window_ok(st),
    ensures
        window_ok(flush_run_spec(st).0),
        flush_run_spec(st).0.capacity == st.capacity,
{
    match st.run {
        None => {},
        Some(run) => {
            let s0 = DedupeModel { run: None, ..st };
            if run.key.len() == 0 {
                lemma_emit_keeps_window(s0, Seq::empty());
            } else {
                let w = Seq::new(s0.window.len(), |k: int| reset_one(s0.window[k], s0.seq));
                let d0 = DedupeModel { window: w, ..s0 };
                assert forall|i: int| 0 <= i < w.len() implies #[trigger] key_chars(w[i].key)
                    >= MIN_WINDOW_LEN by {
                    assert(w[i].key == s0.window[i].key);
                }
                lemma_emit_all_keeps_window(d0, stale_notes(s0.window, s0.seq));
                let s1 = drain_spec(s0).0;
                let line = if run.count == 1 {
                    run.original
                } else {
                    repeat_note(run.count, run.original)
                };
                lemma_emit_keeps_window(s1, line);
                let s2 = emit_spec(s1, line).0;
                if key_chars(run.key) >= MIN_WINDOW_LEN {
                    lemma_evict_room(s2);
                    let s3 = window_insert_spec(s2, run.key, run.original).0;
                    let e1 = evict_spec(s2).0;
                    assert forall|i: int| 0 <= i < s3.window.len() implies #[trigger] key_chars(s3.window[i].key)
                        >= MIN_WINDOW_LEN by {
                        if i < e1.window.len() {
                            assert(s3.window[i] == e1.window[i]);
                        }
                    }
                }
            }
        },
    }
}

/// The window never outgrows its capacity, and no line shorter than
/// [`MIN_WINDOW_LEN`] is ever remembered in it, whatever line comes next:
/// short lines fold only when adjacent.
pub proof fn lemma_window_stays_bounded(st: DedupeModel, line: Seq<char>)
    requires
        window_ok(st),
    ensures
        window_ok(dedupe_on_line_spec(st, line).0),
        dedupe_on_line_spec(st, line).0.capacity == st.capacity,
{
    let key = normalize_spec(encode_utf8(line), st.fuzzy);
    if !(st.run is Some && st.run->0.key == key) {
        lemma_flush_keeps_window(st);
        let s1 = flush_run_spec(st).0;
        if key_chars(key) >= MIN_WINDOW_LEN {
            lemma_last_match(s1.window, key);
            match last_match(s1.window, key) {
                None => {},
                Some(i) => {
                    let e = s1.window[i];
                    let w = s1.window.remove(i).push(
                        EntryModel { extra: sat_inc(e.extra), last_hit: s1.seq, ..e },
                    );
                    assert forall|j: int| 0 <= j < w.len() implies #[trigger] key_chars(w[j].key)
                        >= MIN_WINDOW_LEN by {
                        if j < i {
                            assert(w[j] == s1.window[j]);
                        } else if j < w.len() - 1 {
                            assert(w[j] == s1.window[j + 1]);
                        }
                    }
                },
            }
        }
    }
}

/// A fresh deduplicator satisfies [`window_ok`].
pub proof fn lemma_fresh_window_ok(capacity: usize, fuzzy: bool)
    ensures
        window_ok(
            DedupeModel {
                run: None,
                window: Seq::empty(),
                capacity: if capacity == 0 {
                    1
                } else {
                    capacity as nat
                },
                fuzzy,
                seq: 0,
                last_blank: false,
            },
        ),
{
}

/// No two adjacent lines of `o` are blank, and the first is not blank when
/// the line just before `o` (whose blankness is `prev`) was.
pub open spec fn blanks_collapsed(prev: bool, o: Seq<Seq<char>>) -> bool {
    &&& (prev && o.len() > 0 ==> !all_space(o[0]))
    &&& forall|i: int|
        0 <= i < o.len() - 1 ==> !(all_space(#[trigger] o[i]) && all_space(o[i + 1]))
}

/// Whether the last line written is blank, after `o` follows a line whose
/// blankness is `prev`.
pub open spec fn ends_blank(prev: bool, o: Seq<Seq<char>>) -> bool {
    if o.len() == 0 {
        prev
    } else {
        all_space(o.last())
    }
}

/// A step from `a` to `b` that writes `o` keeps blank runs collapsed and
/// tracks the blankness of the last line written.
pub open spec fn tidy_step(a: DedupeModel, b: DedupeModel, o: Seq<Seq<char>>) -> bool {
    blanks_collapsed(a.last_blank, o) && b.last_blank == ends_blank(a.last_blank, o)
}

proof fn lemma_tidy_compose(
    a: DedupeModel,
    b: DedupeModel,
    c: DedupeModel,
    o1: Seq<Seq<char>>,
    o2: Seq<Seq<char>>,
)
    requires
        tidy_step(a, b, o1),
        tidy_step(b, c, o2),
    ensures
        tidy_step(a, c, o1 + o2),
{
    let o = o1 + o2;
    assert forall|i: int| 0 <= i < o.len() - 1 implies !(all_space(#[trigger] o[i]) && all_space(
        o[i + 1],
    )) by {
        if i < o1.len() - 1 {
            assert(o[i] == o1[i] && o[i + 1] == o1[i + 1]);
        } else if i == o1.len() - 1 {
            assert(o[i] == o1.last());
            assert(o[i + 1] == o2[0]);
        } else {
            assert(o[i] == o2[i - o1.len()]);
            assert(o[i + 1] == o2[i - o1.len() + 1]);
        }
    }
    if o1.len() == 0 {
        assert(o =~= o2);
    } else if o2.len() == 0 {
        assert(o =~= o1);
    } else {
        assert(o.last() == o2.last());
        assert(o[0] == o1[0]);
    }
}

proof fn lemma_tidy_same(a: DedupeModel, b: DedupeModel)
    requires
        a.last_blank == b.last_blank,
    ensures
        tidy_step(a, b, Seq::empty()),
{
}

proof fn lemma_tidy_emit(st: DedupeModel, line: Seq<char>)
    ensures
        tidy_step(st, emit_spec(st, line).0, emit_spec(st, line).1),
{
}

proof fn lemma_tidy_emit_all(st: DedupeModel, lines: Seq<Seq<char>>)
    ensures
        tidy_step(st, emit_all(st, lines).0, emit_all(st, lines).1),
    decreases lines.len(),
{
    if lines.len() > 0 {
        lemma_tidy_emit_all(st, lines.drop_last());
        let (s1, o1) = emit_all(st, lines.drop_last());
        lemma_tidy_emit(s1, lines.last());
        let (s2, o2) = emit_spec(s1, lines.last());
        lemma_tidy_compose(st, s1, s2, o1, o2);
    } else {
        lemma_tidy_same(st, st);
    }
}

proof fn lemma_tidy_evict(st: DedupeModel)
    ensures
        tidy_step(st, evict_spec(st).0, evict_spec(st).1),
    decreases st.window.len(),
{
    if st.window.len() > 0 && st.window.len() >= st.capacity {
        let e = st.window[0];
        let s1 = DedupeModel { window: st.window.drop_first(), ..st };
        let (s2, o2) = if e.extra > 0 {
            emit_spec(s1, extra_note(e.extra, e.sample))
        } else {
            (s1, Seq::empty())
        };
        lemma_tidy_emit(s1, extra_note(e.extra, e.sample));
        lemma_tidy_same(s1, s1);
        lemma_tidy_evict(s2);
        let (s3, o3) = evict_spec(s2);
        lemma_tidy_compose(s1, s2, s3, o2, o3);
    } else {
        lemma_tidy_same(st, st);
    }
}

proof fn lemma_tidy_flush(st: DedupeModel)
    ensures
        tidy_step(st, flush_run_spec(st).0, flush_run_spec(st).1),
{
    match st.run {
        None => lemma_tidy_same(st, st),
        Some(run) => {
            let s0 = DedupeModel { run: None, ..st };
            if run.key.len() == 0 {
                lemma_tidy_emit(s0, Seq::empty());
            } else {
                let w = Seq::new(s0.window.len(), |k: int| reset_one(s0.window[k], s0.seq));
                let d0 = DedupeModel { window: w, ..s0 };
                lemma_tidy_emit_all(d0, stale_notes(s0.window, s0.seq));
                let (s1, o1) = drain_spec(s0);
                let line = if run.count == 1 {
                    run.original
                } else {
                    repeat_note(run.count, run.original)
                };
                lemma_tidy_emit(s1, line);
                let (s2, o2) = emit_spec(s1, line);
                let (s3, o3) = window_insert_spec(s2, run.key, run.original);
                if key_chars(run.key) < MIN_WINDOW_LEN {
                    lemma_tidy_same(s2, s3);
                } else {
                    lemma_tidy_evict(s2);
                }
                lemma_tidy_compose(st, s1, s2, o1, o2);
                lemma_tidy_compose(st, s2, s3, o1 + o2, o3);
            }
        },
    }
}

proof fn lemma_tidy_on_line(st: DedupeModel, line: Seq<char>)
    ensures
        tidy_step(st, dedupe_on_line_spec(st, line).0, dedupe_on_line_spec(st, line).1),
{
    let key = normalize_spec(encode_utf8(line), st.fuzzy);
    if st.run is Some && st.run->0.key == key {
        lemma_tidy_same(st, dedupe_on_line_spec(st, line).0);
    } else {
        lemma_tidy_flush(st);
        let (s1, o1) = flush_run_spec(st);
        let (s2, hit) = bump_spec(s1, key);
        let s3 = dedupe_on_line_spec(st, line).0;
        lemma_tidy_same(s1, s3);
        lemma_tidy_compose(st, s1, s3, o1, Seq::empty());
        assert(o1 + Seq::<Seq<char>>::empty() =~= o1);
    }
}

proof fn lemma_tidy_drain_all(st: DedupeModel)
    ensures
        tidy_step(st, drain_all_spec(st).0, drain_all_spec(st).1),
    decreases st.window.len(),
{
    if st.window.len() > 0 {
        let e = st.window[0];
        let s1 = DedupeModel { window: st.window.drop_first(), ..st };
        let (s2, o2) = if e.extra > 0 {
            emit_spec(s1, extra_note(e.extra, e.sample))
        } else {
            (s1, Seq::empty())
        };
        lemma_tidy_emit(s1, extra_note(e.extra, e.sample));
        lemma_tidy_same(s1, s1);
        lemma_tidy_drain_all(s2);
        let (s3, o3) = drain_all_spec(s2);
        lemma_tidy_compose(s1, s2, s3, o2, o3);
    } else {
        lemma_tidy_same(st, st);
    }
}

/// The deduplicator fed `lines` in order, before the end of input.
pub open spec fn dedupe_lines(st: DedupeModel, lines: Seq<Seq<char>>) -> (
    DedupeModel,
    Seq<Seq<char>>,
)
    decreases lines.len(),
{
    if lines.len() == 0 {
        (st, Seq::empty())
    } else {
        let (s1, o1) = dedupe_lines(st, lines.drop_last());
        let (s2, o2) = dedupe_on_line_spec(s1, lines.last());
        (s2, o1 + o2)
    }
}

/// Blank runs collapse: whatever the input, the deduplicator never writes two
/// blank lines in a row, counting across lines it suppressed and the notes it
/// wrote in between, nor a blank line right after the blank line it wrote
/// last.
pub proof fn lemma_blank_runs_collapse(st: DedupeModel, lines: Seq<Seq<char>>)
    ensures
        blanks_collapsed(
            st.last_blank,
            dedupe_lines(st, lines).1 + dedupe_finish_spec(dedupe_lines(st, lines).0).1,
        ),
    decreases lines.len(),
{
    lemma_tidy_lines(st, lines);
    let (s1, o1) = dedupe_lines(st, lines);
    lemma_tidy_flush(s1);
    let (s2, o2) = flush_run_spec(s1);
    lemma_tidy_drain_all(s2);
    let (s3, o3) = drain_all_spec(s2);
    lemma_tidy_compose(s1, s2, s3, o2, o3);
    lemma_tidy_compose(st, s1, s3, o1, o2 + o3);
}

proof fn lemma_tidy_lines(st: DedupeModel, lines: Seq<Seq<char>>)
    ensures
        tidy_step(st, dedupe_lines(st, lines).0, dedupe_lines(st, lines).1),
    decreases lines.len(),
{
    if lines.len() > 0 {
        lemma_tidy_lines(st, lines.drop_last());
        let (s1, o1) = dedupe_lines(st, lines.drop_last());
        lemma_tidy_on_line(s1, lines.last());
        let (s2, o2) = dedupe_on_line_spec(s1, lines.last());
        lemma_tidy_compose(st, s1, s2, o1, o2);
    } else {
        lemma_tidy_same(st, st);
    }
}

/// A marker line of this processor: a repeat note or a windowed note.
pub open spec fn is_note(l: Seq<char>) -> bool {
    exists|n: nat, x: Seq<char>|
        #![trigger repeat_note(n, x)]
        #![trigger extra_note(n, x)]
        l == repeat_note(n, x) || l == extra_note(n, x)
}

/// A line the deduplicator may write when every line it takes satisfies
/// `ok`: such a line verbatim, the blank line a blank run collapses to, or a
/// note.
pub open spec fn accounted(l: Seq<char>, ok: spec_fn(Seq<char>) -> bool) -> bool {
    ok(l) || l.len() == 0 || is_note(l)
}

pub open spec fn all_accounted(o: Seq<Seq<char>>, ok: spec_fn(Seq<char>) -> bool) -> bool {
    forall|k: int| 0 <= k < o.len() ==> accounted(#[trigger] o[k], ok)
}

/// The open run's line satisfies `ok`.
pub open spec fn run_ok(st: DedupeModel, ok: spec_fn(Seq<char>) -> bool) -> bool {
    st.run is Some ==> ok(st.run->0.original)
}

proof fn lemma_accounted_add(a: Seq<Seq<char>>, b: Seq<Seq<char>>, ok: spec_fn(Seq<char>) -> bool)
    requires
        all_accounted(a, ok),
        all_accounted(b, ok),
    ensures
        all_accounted(a + b, ok),
{
    assert forall|k: int| 0 <= k < (a + b).len() implies accounted(#[trigger] (a + b)[k], ok) by {
        if k < a.len() {
            assert((a + b)[k] == a[k]);
        } else {
            assert((a + b)[k] == b[k - a.len()]);
        }
    }
}

proof fn lemma_accounted_emit(st: DedupeModel, line: Seq<char>, ok: spec_fn(Seq<char>) -> bool)
    requires
        accounted(line, ok),
    ensures
        all_accounted(emit_spec(st, line).1, ok),
        emit_spec(st, line).0.run == st.run,
{
}

proof fn lemma_accounted_emit_all(
    st: DedupeModel,
    lines: Seq<Seq<char>>,
    ok: spec_fn(Seq<char>) -> bool,
)
    requires
        all_accounted(lines, ok),
    ensures
        all_accounted(emit_all(st, lines).1, ok),
        emit_all(st, lines).0.run == st.run,
    decreases lines.len(),
{
    if lines.len() > 0 {
        lemma_accounted_emit_all(st, lines.drop_last(), ok);
        let (s1, o1) = emit_all(st, lines.drop_last());
        assert(accounted(lines[lines.len() - 1], ok));
        lemma_accounted_emit(s1, lines.last(), ok);
        lemma_accounted_add(o1, emit_spec(s1, lines.last()).1, ok);
    }
}

proof fn lemma_stale_notes_accounted(w: Seq<EntryModel>, seq: nat, ok: spec_fn(Seq<char>) -> bool)
    ensures
        all_accounted(stale_notes(w, seq), ok),
    decreases w.len(),
{
    if w.len() > 0 {
        lemma_stale_notes_accounted(w.drop_last(), seq, ok);
        let last = w.last();
        assert(is_note(extra_note(last.extra, last.sample)));
        let tail = if is_stale(last, seq) {
            seq![extra_note(last.extra, last.sample)]
        } else {
            Seq::empty()
        };
        lemma_accounted_add(stale_notes(w.drop_last(), seq), tail, ok);
    }
}

proof fn lemma_accounted_evict(st: DedupeModel, ok: spec_fn(Seq<char>) -> bool)
    ensures
        all_accounted(evict_spec(st).1, ok),
        evict_spec(st).0.run == st.run,
    decreases st.window.len(),
{
    if st.window.len() > 0 && st.window.len() >= st.capacity {
        let e = st.window[0];
        let s1 = DedupeModel { window: st.window.drop_first(), ..st };
        assert(is_note(extra_note(e.extra, e.sample)));
        lemma_accounted_emit(s1, extra_note(e.extra, e.sample), ok);
        let (s2, o2) = if e.extra > 0 {
            emit_spec(s1, extra_note(e.extra, e.sample))
        } else {
            (s1, Seq::empty())
        };
        lemma_accounted_evict(s2, ok);
        lemma_accounted_add(o2, evict_spec(s2).1, ok);
    }
}

proof fn lemma_accounted_flush(st: DedupeModel, ok: spec_fn(Seq<char>) -> bool)
    requires
        run_ok(st, ok),
    ensures
        all_accounted(flush_run_spec(st).1, ok),
        flush_run_spec(st).0.run is None,
{
    match st.run {
        None => {},
        Some(run) => {
            let s0 = DedupeModel { run: None, ..st };
            if run.key.len() == 0 {
                lemma_accounted_emit(s0, Seq::empty(), ok);
            } else {
                let w = Seq::new(s0.window.len(), |k: int| reset_one(s0.window[k], s0.seq));
                let d0 = DedupeModel { window: w, ..s0 };
                lemma_stale_notes_accounted(s0.window, s0.seq, ok);
                lemma_accounted_emit_all(d0, stale_notes(s0.window, s0.seq), ok);
                let (s1, o1) = drain_spec(s0);
                let line = if run.count == 1 {
                    run.original
                } else {
                    repeat_note(run.count, run.original)
                };
                assert(is_note(repeat_note(run.count, run.original)));
                lemma_accounted_emit(s1, line, ok);
                let (s2, o2) = emit_spec(s1, line);
                if key_chars(run.key) >= MIN_WINDOW_LEN {
                    lemma_accounted_evict(s2, ok);
                }
                let (s3, o3) = window_insert_spec(s2, run.key, run.original);
                lemma_accounted_add(o1, o2, ok);
                lemma_accounted_add(o1 + o2, o3, ok);
            }
        },
    }
}

proof fn lemma_accounted_drain_all(st: DedupeModel, ok: spec_fn(Seq<char>) -> bool)
    ensures
        all_accounted(drain_all_spec(st).1, ok),
        drain_all_spec(st).0.run == st.run,
    decreases st.window.len(),
{
    if st.window.len() > 0 {
        let e = st.window[0];
        let s1 = DedupeModel { window: st.window.drop_first(), ..st };
        assert(is_note(extra_note(e.extra, e.sample)));
        lemma_accounted_emit(s1, extra_note(e.extra, e.sample), ok);
        let (s2, o2) = if e.extra > 0 {
            emit_spec(s1, extra_note(e.extra, e.sample))
        } else {
            (s1, Seq::empty())
        };
        lemma_accounted_drain_all(s2, ok);
        lemma_accounted_add(o2, drain_all_spec(s2).1, ok);
    }
}

/// One step keeps the deduplicator's output accounted for: when the open
/// run's line and the new line satisfy `ok`, every line written (now, or at
/// the end of input) satisfies `ok` or is a blank line or a note.
pub proof fn lemma_step_accounted(st: DedupeModel, line: Seq<char>, ok: spec_fn(Seq<char>) -> bool)
    requires
        run_ok(st, ok),
        ok(line),
    ensures
        run_ok(dedupe_on_line_spec(st, line).0, ok),
        all_accounted(dedupe_on_line_spec(st, line).1, ok),
        all_accounted(dedupe_finish_spec(st).1, ok),
        dedupe_finish_spec(st).0.run is None,
{
    lemma_accounted_flush(st, ok);
    let (f1, g1) = flush_run_spec(st);
    lemma_accounted_drain_all(f1, ok);
    lemma_accounted_add(g1, drain_all_spec(f1).1, ok);
}

/// Lines survive verbatim or are accounted for: whenever every line fed in
/// satisfies `ok` (say, "is one of the input lines"), every line the
/// deduplicator writes satisfies it too, byte for byte, or is the blank line
/// a blank run collapses to, or a note that counts what it dropped.
pub proof fn lemma_survivors_are_input_lines(
    st: DedupeModel,
    lines: Seq<Seq<char>>,
    ok: spec_fn(Seq<char>) -> bool,
)
    requires
        run_ok(st, ok),
        forall|i: int| 0 <= i < lines.len() ==> ok(#[trigger] lines[i]),
    ensures
        all_accounted(
            dedupe_lines(st, lines).1 + dedupe_finish_spec(dedupe_lines(st, lines).0).1,
            ok,
        ),
{
    lemma_lines_accounted(st, lines, ok);
    let (s1, o1) = dedupe_lines(st, lines);
    lemma_accounted_flush(s1, ok);
    let (f1, g1) = flush_run_spec(s1);
    lemma_accounted_drain_all(f1, ok);
    lemma_accounted_add(g1, drain_all_spec(f1).1, ok);
    lemma_accounted_add(o1, dedupe_finish_spec(s1).1, ok);
}

proof fn lemma_lines_accounted(st: DedupeModel, lines: Seq<Seq<char>>, ok: spec_fn(Seq<char>) -> bool)
    requires
        run_ok(st, ok),
        forall|i: int| 0 <= i < lines.len() ==> ok(#[trigger] lines[i]),
    ensures
        run_ok(dedupe_lines(st, lines).0, ok),
        all_accounted(dedupe_lines(st, lines).1, ok),
    decreases lines.len(),
{
    if lines.len() > 0 {
        let p = lines.drop_last();
        let l = lines.last();
        assert forall|i: int| 0 <= i < p.len() implies ok(#[trigger] p[i]) by {
            assert(p[i] == lines[i]);
        }
        assert(ok(lines[lines.len() - 1]));
        lemma_lines_accounted(st, p, ok);
        let (s1, o1) = dedupe_lines(st, p);
        lemma_step_accounted(s1, l, ok);
        lemma_accounted_add(o1, dedupe_on_line_spec(s1, l).1, ok);
    }
}

// ---------------------------------------------------------------------------
// Order
// ---------------------------------------------------------------------------

/// The line the open run will write if it stays a single line.
pub open spec fn dedupe_pending(st: DedupeModel) -> Seq<Seq<char>> {
    match st.run {
        Some(r) => seq![r.original],
        None => Seq::empty(),
    }
}

proof fn lemma_notes_leave_no_content(o: Seq<Seq<char>>)
    requires
        all_accounted(o, |l: Seq<char>| false),
    ensures
        content_of(o) == Seq::<Seq<char>>::empty(),
{
    assert forall|k: int| 0 <= k < o.len() implies marker_line(#[trigger] o[k]) by {
        assert(accounted(o[k], |l: Seq<char>| false));
    }
    lemma_content_of_markers(o);
}

proof fn lemma_flush_in_order(st: DedupeModel)
    ensures
        is_subseq(content_of(flush_run_spec(st).1), content_of(dedupe_pending(st))),
        flush_run_spec(st).0.run is None,
{
    let none = |l: Seq<char>| false;
    match st.run {
        None => {
            lemma_subseq_empty(content_of(dedupe_pending(st)));
        },
        Some(run) => {
            let s0 = DedupeModel { run: None, ..st };
            let p = dedupe_pending(st);
            if run.key.len() == 0 {
                let o = emit_spec(s0, Seq::empty()).1;
                assert(marker_line(Seq::<char>::empty()));
                assert forall|k: int| 0 <= k < o.len() implies marker_line(#[trigger] o[k]) by {
                    assert(o[k] == Seq::<char>::empty());
                }
                lemma_content_of_markers(o);
                lemma_subseq_empty(content_of(p));
            } else {
                let w = Seq::new(s0.window.len(), |k: int| reset_one(s0.window[k], s0.seq));
                let d0 = DedupeModel { window: w, ..s0 };
                lemma_stale_notes_accounted(s0.window, s0.seq, none);
                lemma_accounted_emit_all(d0, stale_notes(s0.window, s0.seq), none);
                let (s1, o1) = drain_spec(s0);
                lemma_notes_leave_no_content(o1);
                let line = if run.count == 1 {
                    run.original
                } else {
                    repeat_note(run.count, run.original)
                };
                let (s2, o2) = emit_spec(s1, line);
                let (s3, o3) = window_insert_spec(s2, run.key, run.original);
                if key_chars(run.key) >= MIN_WINDOW_LEN {
                    lemma_accounted_evict(s2, none);
                    lemma_notes_leave_no_content(o3);
                }
                lemma_content_add(o1, o2);
                lemma_content_add(o1 + o2, o3);
                assert(content_of(o1 + o2 + o3) =~= content_of(o2));
                if o2.len() == 0 {
                    lemma_subseq_empty(content_of(p));
                } else if run.count == 1 {
                    assert(o2 =~= p);
                    lemma_subseq_refl(content_of(p));
                } else {
                    assert(is_note(repeat_note(run.count, run.original)));
                    assert(o2 =~= seq![repeat_note(run.count, run.original)]);
                    assert(marker_line(repeat_note(run.count, run.original)));
                    assert forall|k: int| 0 <= k < o2.len() implies marker_line(#[trigger] o2[k]) by {
                        assert(o2[k] == repeat_note(run.count, run.original));
                    }
                    lemma_content_of_markers(o2);
                    lemma_subseq_empty(content_of(p));
                }
            }
        },
    }
}

/// One step keeps the deduplicator in order: what it writes, followed by
/// the line it still holds, is a subsequence of what it held before
/// followed by the new line, counting content lines only (not markers).
pub proof fn lemma_dedupe_step_in_order(st: DedupeModel, line: Seq<char>)
    ensures
        is_subseq(
            content_of(dedupe_on_line_spec(st, line).1) + content_of(
                dedupe_pending(dedupe_on_line_spec(st, line).0),
            ),
            content_of(dedupe_pending(st)) + content_of(seq![line]),
        ),
        is_subseq(content_of(dedupe_finish_spec(st).1), content_of(dedupe_pending(st))),
        dedupe_pending(dedupe_finish_spec(st).0) == Seq::<Seq<char>>::empty(),
{
    let none = |l: Seq<char>| false;
    let p = content_of(dedupe_pending(st));
    let l1 = content_of(seq![line]);
    let key = normalize_spec(encode_utf8(line), st.fuzzy);
    lemma_flush_in_order(st);
    let (f1, g1) = flush_run_spec(st);
    if st.run is Some && st.run->0.key == key {
        let r = dedupe_on_line_spec(st, line);
        assert(dedupe_pending(r.0) == dedupe_pending(st));
        lemma_subseq_refl(p);
        lemma_subseq_widen(p, Seq::empty(), p, l1);
        assert(Seq::<Seq<char>>::empty() + p + l1 =~= p + l1);
        assert(content_of(r.1) =~= Seq::<Seq<char>>::empty());
        assert(content_of(r.1) + p =~= p);
    } else {
        let (s2, hit) = bump_spec(f1, key);
        let r = dedupe_on_line_spec(st, line);
        if hit {
            assert(dedupe_pending(r.0) =~= Seq::<Seq<char>>::empty());
            lemma_subseq_empty(l1);
        } else {
            assert(dedupe_pending(r.0) =~= seq![line]);
            lemma_subseq_refl(l1);
        }
        lemma_subseq_concat(content_of(g1), p, content_of(dedupe_pending(r.0)), l1);
    }
    lemma_accounted_drain_all(f1, none);
    lemma_notes_leave_no_content(drain_all_spec(f1).1);
    lemma_content_add(g1, drain_all_spec(f1).1);
    assert(content_of(g1) + content_of(drain_all_spec(f1).1) =~= content_of(g1));
}

// ---------------------------------------------------------------------------
// The fuzzy key holds no digit
// ---------------------------------------------------------------------------

/// No byte of `k` is an ASCII digit.
pub open spec fn digit_free(k: Seq<u8>) -> bool {
    forall|i: int| 0 <= i < k.len() ==> !is_digit_byte(#[trigger] k[i])
}

proof fn lemma_digit_free_add(a: Seq<u8>, b: Seq<u8>)
    requires
        digit_free(a),
        digit_free(b),
    ensures
        digit_free(a + b),
{
    assert forall|i: int| 0 <= i < (a + b).len() implies !is_digit_byte(#[trigger] (a + b)[i]) by {
        if i < a.len() {
            assert((a + b)[i] == a[i]);
        } else {
            assert((a + b)[i] == b[i - a.len()]);
        }
    }
}

proof fn lemma_mask_digit_free(w: Seq<u8>)
    ensures
        digit_free(mask_digits(w)),
    decreases w.len(),
{
    if w.len() > 0 {
        if is_digit_byte(w[0]) {
            lemma_run_bound(w, ByteKind::Digit);
            lemma_mask_digit_free(w.skip(run_of(w, ByteKind::Digit) as int));
            lemma_digit_free_add(seq![0x23u8], mask_digits(w.skip(run_of(w, ByteKind::Digit) as int)));
        } else {
            lemma_mask_digit_free(w.skip(1));
            lemma_digit_free_add(seq![w[0]], mask_digits(w.skip(1)));
        }
    }
}

proof fn lemma_key_digit_free(b: Seq<u8>)
    ensures
        digit_free(key_of(b, true)),
    decreases b.len(),
{
    if b.len() > 0 {
        if is_ws_byte(b[0]) {
            lemma_run_bound(b, ByteKind::Ws);
            let r = b.skip(run_of(b, ByteKind::Ws) as int);
            lemma_key_digit_free(r);
            lemma_digit_free_add(seq![0x20u8], key_of(r, true));
        } else if is_word_byte(b[0]) {
            lemma_run_bound(b, ByteKind::Word);
            let n = run_of(b, ByteKind::Word) as int;
            lemma_key_digit_free(b.skip(n));
            lemma_mask_digit_free(b.take(n));
            lemma_digit_free_add(word_key(b.take(n), true), key_of(b.skip(n), true));
        } else {
            lemma_key_digit_free(b.skip(1));
            lemma_digit_free_add(seq![b[0]], key_of(b.skip(1), true));
        }
    }
}

/// A fuzzy key holds no digit: every run of digits became `#`, so lines
/// that differ only by their numbers get the same key.
pub proof fn lemma_fuzzy_key_has_no_digit(b: Seq<u8>)
    ensures
        digit_free(normalize_spec(b, true)),
{
    if lead_ws(b) != b.len() {
        lemma_key_digit_free(b.subrange(lead_ws(b) as int, b.len() - trail_ws(b)));
    }
}

// ---------------------------------------------------------------------------
// A key is its own key
// ---------------------------------------------------------------------------

/// Every whitespace byte of `k` is a single space, not followed by another.
pub open spec fn single_spaced(k: Seq<u8>) -> bool {
    forall|i: int|
        0 <= i < k.len() && is_ws_byte(#[trigger] k[i]) ==> k[i] == 0x20u8 && (i + 1 == k.len()
            || !is_ws_byte(k[i + 1]))
}

proof fn lemma_run_facts(b: Seq<u8>, k: ByteKind)
    ensures
        run_of(b, k) <= b.len(),
        forall|t: int| 0 <= t < run_of(b, k) ==> byte_has(k, #[trigger] b[t]),
        run_of(b, k) < b.len() ==> !byte_has(k, b[run_of(b, k) as int]),
    decreases b.len(),
{
    if b.len() > 0 && byte_has(k, b[0]) {
        lemma_run_facts(b.drop_first(), k);
        assert forall|t: int| 0 <= t < run_of(b, k) implies byte_has(k, #[trigger] b[t]) by {
            if t > 0 {
                assert(b[t] == b.drop_first()[t - 1]);
            }
        }
        if run_of(b, k) < b.len() {
            assert(b[run_of(b, k) as int] == b.drop_first()[run_of(b, k) - 1]);
        }
    }
}

proof fn lemma_trail_facts(b: Seq<u8>)
    ensures
        trail_ws(b) <= b.len(),
        forall|t: int| b.len() - trail_ws(b) <= t < b.len() ==> is_ws_byte(#[trigger] b[t]),
        trail_ws(b) < b.len() ==> !is_ws_byte(b[b.len() - trail_ws(b) - 1]),
    decreases b.len(),
{
    if b.len() > 0 && is_ws_byte(b.last()) {
        let p = b.drop_last();
        lemma_trail_facts(p);
        assert forall|t: int| b.len() - trail_ws(b) <= t < b.len() implies is_ws_byte(
            #[trigger] b[t],
        ) by {
            if t < b.len() - 1 {
                assert(b[t] == p[t]);
            }
        }
        if trail_ws(b) < b.len() {
            assert(b[b.len() - trail_ws(b) - 1] == p[p.len() - trail_ws(p) - 1]);
        }
    }
}

proof fn lemma_mask_shape(w: Seq<u8>)
    ensures
        forall|i: int| 0 <= i < mask_digits(w).len() ==> #[trigger] mask_digits(w)[i] == 0x23u8
            || w.contains(mask_digits(w)[i]),
        w.len() > 0 ==> mask_digits(w).len() > 0,
        (forall|i: int| 0 <= i < w.len() ==> !is_digit_byte(#[trigger] w[i])) ==> mask_digits(w)
            == w,
    decreases w.len(),
{
    if w.len() > 0 {
        if is_digit_byte(w[0]) {
            lemma_run_bound(w, ByteKind::Digit);
            let r = w.skip(run_of(w, ByteKind::Digit) as int);
            lemma_mask_shape(r);
            let m = mask_digits(w);
            assert forall|i: int| 0 <= i < m.len() implies #[trigger] m[i] == 0x23u8 || w.contains(
                m[i],
            ) by {
                if i > 0 {
                    assert(m[i] == mask_digits(r)[i - 1]);
                    if mask_digits(r)[i - 1] != 0x23u8 {
                        let j = choose|j: int| 0 <= j < r.len() && r[j] == mask_digits(r)[i - 1];
                        assert(w[j + run_of(w, ByteKind::Digit)] == r[j]);
                    }
                }
            }
        } else {
            let r = w.skip(1);
            lemma_mask_shape(r);
            let m = mask_digits(w);
            assert forall|i: int| 0 <= i < m.len() implies #[trigger] m[i] == 0x23u8 || w.contains(
                m[i],
            ) by {
                if i == 0 {
                    assert(w[0] == m[0]);
                } else {
                    assert(m[i] == mask_digits(r)[i - 1]);
                    if mask_digits(r)[i - 1] != 0x23u8 {
                        let j = choose|j: int| 0 <= j < r.len() && r[j] == mask_digits(r)[i - 1];
                        assert(w[j + 1] == r[j]);
                    }
                }
            }
            if forall|i: int| 0 <= i < w.len() ==> !is_digit_byte(#[trigger] w[i]) {
                assert forall|i: int| 0 <= i < r.len() implies !is_digit_byte(#[trigger] r[i]) by {
                    assert(r[i] == w[i + 1]);
                }
                assert(seq![w[0]] + r =~= w);
            }
        }
    }
}

/// The word key of an identifier run is non-empty and holds no whitespace.
proof fn lemma_word_key_shape(w: Seq<u8>, fuzzy: bool)
    requires
        w.len() > 0,
        forall|i: int| 0 <= i < w.len() ==> is_word_byte(#[trigger] w[i]),
    ensures
        word_key(w, fuzzy).len() > 0,
        forall|i: int| 0 <= i < word_key(w, fuzzy).len() ==> !is_ws_byte(#[trigger] word_key(w, fuzzy)[i]),
{
    lemma_mask_shape(w);
    let m = mask_digits(w);
    assert forall|i: int| 0 <= i < m.len() implies !is_ws_byte(#[trigger] m[i]) by {
        if m[i] != 0x23u8 {
            let j = choose|j: int| 0 <= j < w.len() && w[j] == m[i];
            assert(is_word_byte(w[j]));
        }
    }
}

proof fn lemma_key_shape(b: Seq<u8>, fuzzy: bool)
    ensures
        single_spaced(key_of(b, fuzzy)),
        b.len() > 0 && !is_ws_byte(b[0]) ==> key_of(b, fuzzy).len() > 0 && !is_ws_byte(
            key_of(b, fuzzy)[0],
        ),
        b.len() > 0 && !is_ws_byte(b.last()) ==> key_of(b, fuzzy).len() > 0 && !is_ws_byte(
            key_of(b, fuzzy).last(),
        ),
    decreases b.len(),
{
    let k = key_of(b, fuzzy);
    if b.len() > 0 {
        let (head, rest) = if is_ws_byte(b[0]) {
            lemma_run_bound(b, ByteKind::Ws);
            (seq![0x20u8], b.skip(run_of(b, ByteKind::Ws) as int))
        } else if is_word_byte(b[0]) {
            lemma_run_bound(b, ByteKind::Word);
            let n = run_of(b, ByteKind::Word) as int;
            (word_key(b.take(n), fuzzy), b.skip(n))
        } else {
            (seq![b[0]], b.skip(1))
        };
        lemma_key_shape(rest, fuzzy);
        let r = key_of(rest, fuzzy);
        assert(k == head + r);
        if is_ws_byte(b[0]) {
            lemma_run_facts(b, ByteKind::Ws);
            if rest.len() > 0 {
                assert(rest[0] == b[run_of(b, ByteKind::Ws) as int]);
            } else {
                assert(is_ws_byte(b[b.len() - 1]));
            }
            if rest.len() > 0 {
                assert(rest.last() == b.last());
            }
        } else if is_word_byte(b[0]) {
            lemma_run_facts(b, ByteKind::Word);
            let n = run_of(b, ByteKind::Word) as int;
            assert forall|i: int| 0 <= i < b.take(n).len() implies is_word_byte(
                #[trigger] b.take(n)[i],
            ) by {}
            lemma_word_key_shape(b.take(n), fuzzy);
            if rest.len() > 0 {
                assert(rest.last() == b.last());
            }
        } else {
            if rest.len() > 0 {
                assert(rest.last() == b.last());
            }
        }
        assert forall|i: int|
            0 <= i < k.len() && is_ws_byte(#[trigger] k[i]) implies k[i] == 0x20u8 && (i + 1
            == k.len() || !is_ws_byte(k[i + 1])) by {
            if i < head.len() {
                assert(k[i] == head[i]);
                assert(is_ws_byte(b[0]));
                if i + 1 < k.len() {
                    assert(k[i + 1] == r[0]);
                }
            } else {
                assert(k[i] == r[i - head.len()]);
                if i + 1 < k.len() {
                    assert(k[i + 1] == r[i + 1 - head.len()]);
                }
            }
        }
        if rest.len() == 0 {
            assert(r.len() == 0);
            assert(k =~= head);
        }
    }
}

proof fn lemma_key_of_key(k: Seq<u8>, fuzzy: bool)
    requires
        single_spaced(k),
        fuzzy ==> digit_free(k),
    ensures
        key_of(k, fuzzy) == k,
    decreases k.len(),
{
    if k.len() > 0 {
        if is_ws_byte(k[0]) {
            lemma_run_of(k, 0, 1, ByteKind::Ws);
            assert(k.skip(0) =~= k);
            let r = k.skip(1);
            assert forall|i: int| 0 <= i < r.len() && is_ws_byte(#[trigger] r[i]) implies r[i]
                == 0x20u8 && (i + 1 == r.len() || !is_ws_byte(r[i + 1])) by {
                assert(r[i] == k[i + 1]);
                if i + 1 < r.len() {
                    assert(r[i + 1] == k[i + 2]);
                }
            }
            lemma_key_of_key(r, fuzzy);
            assert(seq![0x20u8] + r =~= k);
        } else if is_word_byte(k[0]) {
            lemma_run_bound(k, ByteKind::Word);
            let n = run_of(k, ByteKind::Word) as int;
            let w = k.take(n);
            let r = k.skip(n);
            if fuzzy {
                assert forall|i: int| 0 <= i < w.len() implies !is_digit_byte(#[trigger] w[i]) by {
                    assert(w[i] == k[i]);
                }
                assert(!has_digit(w));
                lemma_mask_shape(w);
                assert forall|i: int| 0 <= i < r.len() implies !is_digit_byte(#[trigger] r[i]) by {
                    assert(r[i] == k[i + n]);
                }
            }
            assert forall|i: int| 0 <= i < r.len() && is_ws_byte(#[trigger] r[i]) implies r[i]
                == 0x20u8 && (i + 1 == r.len() || !is_ws_byte(r[i + 1])) by {
                assert(r[i] == k[i + n]);
                if i + 1 < r.len() {
                    assert(r[i + 1] == k[i + n + 1]);
                }
            }
            lemma_key_of_key(r, fuzzy);
            assert(w + r =~= k);
        } else {
            let r = k.skip(1);
            assert forall|i: int| 0 <= i < r.len() && is_ws_byte(#[trigger] r[i]) implies r[i]
                == 0x20u8 && (i + 1 == r.len() || !is_ws_byte(r[i + 1])) by {
                assert(r[i] == k[i + 1]);
                if i + 1 < r.len() {
                    assert(r[i + 1] == k[i + 2]);
                }
            }
            if fuzzy {
                assert forall|i: int| 0 <= i < r.len() implies !is_digit_byte(#[trigger] r[i]) by {
                    assert(r[i] == k[i + 1]);
                }
            }
            lemma_key_of_key(r, fuzzy);
            assert(seq![k[0]] + r =~= k);
        }
    }
}

/// A key is its own key: normalizing a key again changes nothing.
pub proof fn lemma_normalize_idempotent(b: Seq<u8>, fuzzy: bool)
    ensures
        normalize_spec(normalize_spec(b, fuzzy), fuzzy) == normalize_spec(b, fuzzy),
{
    let k = normalize_spec(b, fuzzy);
    if lead_ws(b) == b.len() {
        assert(lead_ws(k) == 0);
    } else {
        let l = lead_ws(b) as int;
        lemma_run_facts(b, ByteKind::Ws);
        lemma_trail_facts(b);
        let e = b.len() - trail_ws(b);
        assert(!is_ws_byte(b[l]));
        assert(l < e);
        let t = b.subrange(l, e);
        assert(t[0] == b[l]);
        assert(t.last() == b[e - 1]);
        lemma_key_shape(t, fuzzy);
        if fuzzy {
            lemma_key_digit_free(t);
        }
        lemma_key_of_key(k, fuzzy);
        assert(lead_ws(k) == 0);
        lemma_trail_ws(k, 0);
        assert(k.subrange(0, k.len() as int) =~= k);
    }
}

// ---------------------------------------------------------------------------
// A key is text
// ---------------------------------------------------------------------------

/// Bytes below `0x80` are valid UTF-8 on their own.
proof fn lemma_ascii_valid(s: Seq<u8>)
    requires
        forall|i: int| 0 <= i < s.len() ==> #[trigger] s[i] <= 0x7fu8,
    ensures
        valid_utf8(s),
    decreases s.len(),
{
    if s.len() > 0 {
        let b = s[0];
        assert((b & 0x7f) as u32 <= 0x7f) by (bit_vector);
        let r = s.subrange(1, s.len() as int);
        assert forall|i: int| 0 <= i < r.len() implies #[trigger] r[i] <= 0x7fu8 by {
            assert(r[i] == s[i + 1]);
        }
        lemma_ascii_valid(r);
        assert(pop_first_scalar(s) == r);
    }
}

/// Dropping a leading ASCII byte keeps UTF-8 valid.
proof fn lemma_drop_ascii(s: Seq<u8>, n: int)
    requires
        valid_utf8(s),
        0 <= n <= s.len(),
        forall|i: int| 0 <= i < n ==> #[trigger] s[i] <= 0x7fu8,
    ensures
        valid_utf8(s.skip(n)),
    decreases n,
{
    if n > 0 {
        let r = s.subrange(1, s.len() as int);
        assert(pop_first_scalar(s) == r);
        assert forall|i: int| 0 <= i < n - 1 implies #[trigger] r[i] <= 0x7fu8 by {
            assert(r[i] == s[i + 1]);
        }
        lemma_drop_ascii(r, n - 1);
        assert(r.skip(n - 1) =~= s.skip(n));
    } else {
        assert(s.skip(0) =~= s);
    }
}

/// The key of a byte that is neither whitespace nor part of an identifier
/// is the byte itself, followed by the key of the rest.
proof fn lemma_key_keeps_plain_bytes(b: Seq<u8>, k: int, fuzzy: bool)
    requires
        0 <= k <= b.len(),
        forall|i: int| 0 <= i < k ==> !is_ws_byte(#[trigger] b[i]) && !is_word_byte(b[i]),
    ensures
        key_of(b, fuzzy) == b.take(k) + key_of(b.skip(k), fuzzy),
    decreases k,
{
    if k == 0 {
        assert(b.skip(0) =~= b);
        assert(b.take(0) + key_of(b, fuzzy) =~= key_of(b, fuzzy));
    } else {
        let r = b.skip(1);
        assert forall|i: int| 0 <= i < k - 1 implies !is_ws_byte(#[trigger] r[i]) && !is_word_byte(
            r[i],
        ) by {
            assert(r[i] == b[i + 1]);
        }
        lemma_key_keeps_plain_bytes(r, k - 1, fuzzy);
        assert(r.skip(k - 1) =~= b.skip(k));
        assert(seq![b[0]] + (r.take(k - 1) + key_of(b.skip(k), fuzzy)) =~= b.take(k) + key_of(
            b.skip(k),
            fuzzy,
        ));
    }
}

proof fn lemma_key_of_valid(b: Seq<u8>, fuzzy: bool)
    requires
        valid_utf8(b),
    ensures
        valid_utf8(key_of(b, fuzzy)),
    decreases b.len(),
{
    if b.len() > 0 {
        if is_ws_byte(b[0]) || is_word_byte(b[0]) || b[0] <= 0x7fu8 {
            let (head, n) = if is_ws_byte(b[0]) {
                lemma_run_bound(b, ByteKind::Ws);
                lemma_run_facts(b, ByteKind::Ws);
                (seq![0x20u8], run_of(b, ByteKind::Ws) as int)
            } else if is_word_byte(b[0]) {
                lemma_run_bound(b, ByteKind::Word);
                lemma_run_facts(b, ByteKind::Word);
                let n = run_of(b, ByteKind::Word) as int;
                (word_key(b.take(n), fuzzy), n)
            } else {
                (seq![b[0]], 1int)
            };
            assert(key_of(b, fuzzy) == head + key_of(b.skip(n), fuzzy));
            assert forall|i: int| 0 <= i < n implies #[trigger] b[i] <= 0x7fu8 by {
                if is_ws_byte(b[0]) {
                    assert(byte_has(ByteKind::Ws, b[i]));
                } else if is_word_byte(b[0]) {
                    assert(byte_has(ByteKind::Word, b[i]));
                }
            }
            lemma_drop_ascii(b, n);
            lemma_key_of_valid(b.skip(n), fuzzy);
            if is_word_byte(b[0]) && !is_ws_byte(b[0]) {
                let w = b.take(n);
                lemma_mask_shape(w);
                let m = mask_digits(w);
                assert forall|i: int| 0 <= i < m.len() implies #[trigger] m[i] <= 0x7fu8 by {
                    if m[i] != 0x23u8 {
                        let j = choose|j: int| 0 <= j < w.len() && w[j] == m[i];
                        assert(w[j] == b[j]);
                    }
                }
                assert forall|i: int| 0 <= i < w.len() implies #[trigger] w[i] <= 0x7fu8 by {
                    assert(w[i] == b[i]);
                }
            }
            assert forall|i: int| 0 <= i < head.len() implies #[trigger] head[i] <= 0x7fu8 by {}
            lemma_ascii_valid(head);
            vstd::utf8::valid_utf8_concat(head, key_of(b.skip(n), fuzzy));
        } else {
            // The first scalar is several bytes long, none of them ASCII.
            let l = length_of_first_scalar(b);
            assert(valid_first_scalar(b));
            assert(2 <= l <= 4 && l <= b.len());
            assert forall|i: int| 0 <= i < l implies !is_ws_byte(#[trigger] b[i]) && !is_word_byte(
                b[i],
            ) by {
                if i > 0 {
                    assert(is_continuation_byte(b[i]));
                }
            }
            lemma_key_keeps_plain_bytes(b, l, fuzzy);
            let rest = pop_first_scalar(b);
            assert(rest =~= b.skip(l));
            lemma_key_of_valid(rest, fuzzy);
            let h = b.take(l);
            assert forall|i: int| 0 <= i < l implies #[trigger] h[i] == b[i] by {}
            assert(valid_first_scalar(h));
            assert(length_of_first_scalar(h) == l);
            assert(pop_first_scalar(h) =~= Seq::<u8>::empty());
            assert(valid_utf8(Seq::<u8>::empty()));
            assert(valid_utf8(h));
            vstd::utf8::valid_utf8_concat(h, key_of(rest, fuzzy));
        }
    }
}

/// A key is text: the key of a line is valid UTF-8.
pub proof fn lemma_key_is_text(line: Seq<char>, fuzzy: bool)
    ensures
        valid_utf8(normalize_spec(encode_utf8(line), fuzzy)),
{
    let b = encode_utf8(line);
    vstd::utf8::encode_utf8_valid_utf8(line);
    if lead_ws(b) != b.len() {
        lemma_run_facts(b, ByteKind::Ws);
        lemma_trail_facts(b);
        let l = lead_ws(b) as int;
        let e = b.len() - trail_ws(b);
        assert(!is_ws_byte(b[l]));
        let c = if e < b.len() {
            assert(is_ws_byte(b[e]));
            assert(!is_continuation_byte(b[e]));
            vstd::utf8::is_char_boundary_iff_not_is_continuation_byte(b, e);
            vstd::utf8::valid_utf8_split(b, e);
            b.subrange(0, e)
        } else {
            assert(b.subrange(0, e) =~= b);
            b
        };
        assert(c == b.subrange(0, e));
        assert forall|i: int| 0 <= i < l implies #[trigger] c[i] <= 0x7fu8 by {
            assert(c[i] == b[i]);
            assert(byte_has(ByteKind::Ws, b[i]));
        }
        lemma_drop_ascii(c, l);
        assert(c.skip(l) =~= b.subrange(l, e));
        lemma_key_of_valid(b.subrange(l, e), fuzzy);
    } else {
        lemma_ascii_valid(Seq::<u8>::empty());
    }
}

// ---------------------------------------------------------------------------
// Accounting
// ---------------------------------------------------------------------------

/// The value of a run of ASCII digits.
pub open spec fn digits_value(s: Seq<char>) -> nat
    decreases s.len(),
{
    if s.len() == 0 {
        0
    } else {
        digits_value(s.drop_last()) * 10 + ((s.last() as int) - 48) as nat
    }
}

/// The number written right after `pos` in `o`.
pub open spec fn number_at(o: Seq<char>, pos: int) -> nat {
    digits_value(o.subrange(pos, pos + span(o, pos, CharKind::Range('0', '9'))))
}

/// How many input lines an output line stands for: a repeat note and a
/// windowed-repeat note the count they carry, a blank line none, any other
/// line itself.
pub open spec fn stands_for(o: Seq<char>) -> nat {
    if has_at(o, 0, "[Repeated "@) {
        number_at(o, 10)
    } else if has_at(o, 0, "[+"@) {
        number_at(o, 2)
    } else if all_space(o) {
        0
    } else {
        1
    }
}

/// The input lines the output lines stand for, added up.
pub open spec fn accounted_lines(os: Seq<Seq<char>>) -> nat
    decreases os.len(),
{
    if os.len() == 0 {
        0
    } else {
        accounted_lines(os.drop_last()) + stands_for(os.last())
    }
}

/// The lines that are not blank.
pub open spec fn nonblank_count(ls: Seq<Seq<char>>) -> nat
    decreases ls.len(),
{
    if ls.len() == 0 {
        0
    } else {
        nonblank_count(ls.drop_last()) + if all_space(ls.last()) {
            0nat
        } else {
            1nat
        }
    }
}

/// A line the accounting speaks of: it does not itself look like a note, and
/// it is blank exactly when its key is empty (which leaves out lines made
/// only of vertical tabs or of non-ASCII space characters).
pub open spec fn plain_line(l: Seq<char>, fuzzy: bool) -> bool {
    &&& !has_at(l, 0, "[Repeated "@)
    &&& !has_at(l, 0, "[+"@)
    &&& (normalize_spec(encode_utf8(l), fuzzy).len() == 0 <==> all_space(l))
}

/// The repeats the window still holds.
pub open spec fn extras(w: Seq<EntryModel>) -> nat
    decreases w.len(),
{
    if w.len() == 0 {
        0
    } else {
        extras(w.drop_last()) + w.last().extra
    }
}

/// The lines seen but not yet written or noted: the open run's count (none
/// for a blank run) and the repeats the window holds.
pub open spec fn pending_count(st: DedupeModel) -> nat {
    (match st.run {
        Some(r) => if r.key.len() > 0 {
            r.count
        } else {
            0
        },
        None => 0,
    }) + extras(st.window)
}

/// The open run, when it has a key, started on a line that stands for one.
pub open spec fn run_plain(st: DedupeModel) -> bool {
    match st.run {
        Some(r) => r.key.len() > 0 ==> stands_for(r.original) == 1,
        None => true,
    }
}

proof fn lemma_digit_char(d: nat)
    requires
        d < 10,
    ensures
        '0' <= digit_char(d) <= '9',
        (digit_char(d) as int) - 48 == d,
{
}

pub proof fn lemma_decimal_digits(n: nat)
    ensures
        decimal(n).len() >= 1,
        forall|i: int| 0 <= i < decimal(n).len() ==> '0' <= #[trigger] decimal(n)[i] <= '9',
        digits_value(decimal(n)) == n,
    decreases n,
{
    lemma_digit_char(n % 10);
    if n >= 10 {
        lemma_decimal_digits(n / 10);
        let d = decimal(n);
        assert(d.drop_last() =~= decimal(n / 10));
        assert forall|i: int| 0 <= i < d.len() implies '0' <= #[trigger] d[i] <= '9' by {
            if i < d.len() - 1 {
                assert(d[i] == decimal(n / 10)[i]);
            }
        }
        assert((n / 10) * 10 + n % 10 == n) by (nonlinear_arith);
        assert(d.last() == digit_char(n % 10));
        assert(digits_value(d) == digits_value(d.drop_last()) * 10 + ((d.last() as int) - 48) as nat);
    } else {
        let d = decimal(n);
        assert(d.drop_last() =~= Seq::<char>::empty());
        assert(n % 10 == n);
        assert(d.last() == digit_char(n));
        assert(digits_value(d.drop_last()) == 0);
        assert(digits_value(d) == digits_value(d.drop_last()) * 10 + ((d.last() as int) - 48) as nat);
    }
}

/// The number read back after `pos` is the one written there.
proof fn lemma_number_at(o: Seq<char>, pos: int, n: nat)
    requires
        0 <= pos,
        pos + decimal(n).len() < o.len(),
        o.subrange(pos, pos + decimal(n).len()) == decimal(n),
        !('0' <= o[pos + decimal(n).len()] <= '9'),
    ensures
        number_at(o, pos) == n,
{
    lemma_decimal_digits(n);
    let k = decimal(n).len() as int;
    assert forall|t: int| pos <= t < pos + k implies kind_has(
        CharKind::Range('0', '9'),
        #[trigger] o[t],
    ) by {
        assert(o[t] == o.subrange(pos, pos + k)[t - pos]);
    }
    lemma_span(o, pos, pos + k, CharKind::Range('0', '9'));
}

proof fn lemma_stands_for_notes(n: nat, s: Seq<char>)
    ensures
        stands_for(repeat_note(n, s)) == n,
        stands_for(extra_note(n, s)) == n,
        !all_space(repeat_note(n, s)),
        !all_space(extra_note(n, s)),
{
    reveal_strlit("[Repeated ");
    reveal_strlit(" times: \"");
    reveal_strlit("[+");
    reveal_strlit(" more occurrences of: \"");
    reveal_strlit("\"]");
    lemma_decimal_digits(n);
    let k = decimal(n).len() as int;
    let r = repeat_note(n, s);
    assert(r.subrange(0, 10) =~= "[Repeated "@);
    assert(r.subrange(10, 10 + k) =~= decimal(n));
    assert(r[10 + k] == ' ');
    lemma_number_at(r, 10, n);
    assert(!is_space(r[0]));
    let x = extra_note(n, s);
    assert(x.subrange(0, 2) =~= "[+"@);
    assert(x[1] == '+');
    assert(!(x.subrange(0, 10) =~= "[Repeated "@)) by {
        if 10 <= x.len() {
            assert(x.subrange(0, 10)[1] == '+');
        }
    }
    assert(x.subrange(2, 2 + k) =~= decimal(n));
    assert(x[2 + k] == ' ');
    lemma_number_at(x, 2, n);
    assert(!is_space(x[0]));
}

proof fn lemma_stands_for_blank(l: Seq<char>)
    requires
        all_space(l),
    ensures
        stands_for(l) == 0,
{
    reveal_strlit("[Repeated ");
    reveal_strlit("[+");
    if l.len() > 0 {
        assert(is_space(l[0]));
        if has_at(l, 0, "[Repeated "@) {
            assert(l.subrange(0, 10)[0] == '[');
        }
        if has_at(l, 0, "[+"@) {
            assert(l.subrange(0, 2)[0] == '[');
        }
    }
}

proof fn lemma_lines_add(a: Seq<Seq<char>>, b: Seq<Seq<char>>)
    ensures
        accounted_lines(a + b) == accounted_lines(a) + accounted_lines(b),
    decreases b.len(),
{
    if b.len() == 0 {
        assert(a + b =~= a);
    } else {
        lemma_lines_add(a, b.drop_last());
        assert((a + b).drop_last() =~= a + b.drop_last());
    }
}

proof fn lemma_accounted_one(l: Seq<char>)
    ensures
        accounted_lines(seq![l]) == stands_for(l),
{
    assert(seq![l].drop_last() =~= Seq::<Seq<char>>::empty());
    assert(accounted_lines(Seq::<Seq<char>>::empty()) == 0);
    assert(seq![l].last() == l);
}

proof fn lemma_extras_first(w: Seq<EntryModel>)
    requires
        w.len() > 0,
    ensures
        extras(w) == w[0].extra + extras(w.drop_first()),
    decreases w.len(),
{
    if w.len() == 1 {
        assert(w.drop_last() =~= Seq::<EntryModel>::empty());
        assert(w.drop_first() =~= Seq::<EntryModel>::empty());
    } else {
        lemma_extras_first(w.drop_last());
        assert(w.drop_last().drop_first() =~= w.drop_first().drop_last());
        assert(w.drop_first().last() == w.last());
    }
}

proof fn lemma_extras_remove(w: Seq<EntryModel>, i: int)
    requires
        0 <= i < w.len(),
    ensures
        extras(w) == extras(w.remove(i)) + w[i].extra,
    decreases w.len(),
{
    if i == w.len() - 1 {
        assert(w.remove(i) =~= w.drop_last());
    } else {
        lemma_extras_remove(w.drop_last(), i);
        assert(w.remove(i).drop_last() =~= w.drop_last().remove(i));
        assert(w.remove(i).last() == w.last());
    }
}

proof fn lemma_stale_notes(w: Seq<EntryModel>, seq: nat)
    ensures
        accounted_lines(stale_notes(w, seq)) + extras(
            Seq::new(w.len(), |k: int| reset_one(w[k], seq)),
        ) == extras(w),
    decreases w.len(),
{
    let r = Seq::new(w.len(), |k: int| reset_one(w[k], seq));
    if w.len() == 0 {
        assert(stale_notes(w, seq) =~= Seq::<Seq<char>>::empty());
    } else {
        let p = w.drop_last();
        lemma_stale_notes(p, seq);
        assert(r.drop_last() =~= Seq::new(p.len(), |k: int| reset_one(p[k], seq)));
        let e = w.last();
        let tail = if is_stale(e, seq) {
            seq![extra_note(e.extra, e.sample)]
        } else {
            Seq::<Seq<char>>::empty()
        };
        lemma_lines_add(stale_notes(p, seq), tail);
        if is_stale(e, seq) {
            lemma_accounted_one(extra_note(e.extra, e.sample));
            lemma_stands_for_notes(e.extra, e.sample);
        }
    }
}

/// Writing a line changes nothing but the blank marker and the line count,
/// and what is written stands for what the line stands for.
proof fn lemma_emit_accounts(st: DedupeModel, l: Seq<char>)
    ensures
        accounted_lines(emit_spec(st, l).1) == stands_for(l),
        emit_spec(st, l).0.run == st.run,
        emit_spec(st, l).0.window == st.window,
        emit_spec(st, l).0.fuzzy == st.fuzzy,
        emit_spec(st, l).0.capacity == st.capacity,
{
    lemma_accounted_one(l);
    if all_space(l) {
        lemma_stands_for_blank(l);
        assert(accounted_lines(Seq::<Seq<char>>::empty()) == 0);
    }
}

proof fn lemma_emit_all_accounts(st: DedupeModel, ls: Seq<Seq<char>>)
    ensures
        accounted_lines(emit_all(st, ls).1) == accounted_lines(ls),
        emit_all(st, ls).0.run == st.run,
        emit_all(st, ls).0.window == st.window,
        emit_all(st, ls).0.fuzzy == st.fuzzy,
        emit_all(st, ls).0.capacity == st.capacity,
    decreases ls.len(),
{
    if ls.len() > 0 {
        lemma_emit_all_accounts(st, ls.drop_last());
        let (s1, o1) = emit_all(st, ls.drop_last());
        lemma_emit_accounts(s1, ls.last());
        lemma_lines_add(o1, emit_spec(s1, ls.last()).1);
    }
}

proof fn lemma_drain_accounts(st: DedupeModel)
    ensures
        accounted_lines(drain_spec(st).1) + extras(drain_spec(st).0.window) == extras(st.window),
        drain_spec(st).0.run == st.run,
        drain_spec(st).0.fuzzy == st.fuzzy,
        drain_spec(st).0.capacity == st.capacity,
{
    let w = Seq::new(st.window.len(), |k: int| reset_one(st.window[k], st.seq));
    lemma_emit_all_accounts(DedupeModel { window: w, ..st }, stale_notes(st.window, st.seq));
    lemma_stale_notes(st.window, st.seq);
}

proof fn lemma_evict_accounts(st: DedupeModel)
    ensures
        accounted_lines(evict_spec(st).1) + extras(evict_spec(st).0.window) == extras(st.window),
        evict_spec(st).0.run == st.run,
        evict_spec(st).0.fuzzy == st.fuzzy,
        evict_spec(st).0.capacity == st.capacity,
    decreases st.window.len(),
{
    if st.window.len() > 0 && st.window.len() >= st.capacity {
        let e = st.window[0];
        let s1 = DedupeModel { window: st.window.drop_first(), ..st };
        lemma_extras_first(st.window);
        let (s2, o2) = if e.extra > 0 {
            emit_spec(s1, extra_note(e.extra, e.sample))
        } else {
            (s1, Seq::<Seq<char>>::empty())
        };
        if e.extra > 0 {
            lemma_emit_accounts(s1, extra_note(e.extra, e.sample));
            lemma_stands_for_notes(e.extra, e.sample);
        }
        lemma_evict_accounts(s2);
        lemma_lines_add(o2, evict_spec(s2).1);
    }
}

proof fn lemma_insert_accounts(st: DedupeModel, key: Seq<u8>, original: Seq<char>)
    ensures
        accounted_lines(window_insert_spec(st, key, original).1) + extras(
            window_insert_spec(st, key, original).0.window,
        ) == extras(st.window),
        window_insert_spec(st, key, original).0.run == st.run,
        window_insert_spec(st, key, original).0.fuzzy == st.fuzzy,
        window_insert_spec(st, key, original).0.capacity == st.capacity,
{
    if key_chars(key) >= MIN_WINDOW_LEN {
        lemma_evict_accounts(st);
        let s1 = evict_spec(st).0;
        let e = EntryModel { key, sample: original, extra: 0, last_hit: s1.seq };
        assert(s1.window.push(e).drop_last() =~= s1.window);
    } else {
        assert(accounted_lines(Seq::<Seq<char>>::empty()) == 0);
    }
}

proof fn lemma_flush_accounts(st: DedupeModel)
    requires
        run_plain(st),
    ensures
        accounted_lines(flush_run_spec(st).1) + pending_count(flush_run_spec(st).0) == pending_count(
            st,
        ),
        flush_run_spec(st).0.run is None,
        flush_run_spec(st).0.fuzzy == st.fuzzy,
        flush_run_spec(st).0.capacity == st.capacity,
{
    match st.run {
        None => {
            assert(accounted_lines(Seq::<Seq<char>>::empty()) == 0);
        },
        Some(run) => {
            let s0 = DedupeModel { run: None, ..st };
            if run.key.len() == 0 {
                lemma_emit_accounts(s0, Seq::<char>::empty());
                lemma_stands_for_blank(Seq::<char>::empty());
            } else {
                lemma_drain_accounts(s0);
                let (s1, o1) = drain_spec(s0);
                let line = if run.count == 1 {
                    run.original
                } else {
                    repeat_note(run.count, run.original)
                };
                lemma_stands_for_notes(run.count, run.original);
                lemma_emit_accounts(s1, line);
                let (s2, o2) = emit_spec(s1, line);
                lemma_insert_accounts(s2, run.key, run.original);
                let o3 = window_insert_spec(s2, run.key, run.original).1;
                lemma_lines_add(o1, o2);
                lemma_lines_add(o1 + o2, o3);
            }
        },
    }
}

proof fn lemma_bump_accounts(st: DedupeModel, key: Seq<u8>)
    requires
        extras(st.window) < usize::MAX,
    ensures
        bump_spec(st, key).1 ==> extras(bump_spec(st, key).0.window) == extras(st.window) + 1,
        bump_spec(st, key).1 ==> key.len() > 0,
        !bump_spec(st, key).1 ==> bump_spec(st, key).0 == st,
        bump_spec(st, key).0.run == st.run,
        bump_spec(st, key).0.fuzzy == st.fuzzy,
        bump_spec(st, key).0.capacity == st.capacity,
{
    if key_chars(key) >= MIN_WINDOW_LEN {
        if key.len() == 0 {
            assert(key_chars(key) == 0);
        }
        lemma_last_match(st.window, key);
        match last_match(st.window, key) {
            None => {},
            Some(i) => {
                let e = st.window[i];
                lemma_extras_remove(st.window, i);
                let e2 = EntryModel { extra: sat_inc(e.extra), last_hit: st.seq, ..e };
                assert(st.window.remove(i).push(e2).drop_last() =~= st.window.remove(i));
            },
        }
    }
}

/// One line moves the accounting on by what the line stands for.
proof fn lemma_step_accounts(st: DedupeModel, line: Seq<char>)
    requires
        run_plain(st),
        plain_line(line, st.fuzzy),
        pending_count(st) + 1 < usize::MAX,
    ensures
        run_plain(dedupe_on_line_spec(st, line).0),
        accounted_lines(dedupe_on_line_spec(st, line).1) + pending_count(
            dedupe_on_line_spec(st, line).0,
        ) == pending_count(st) + (if all_space(line) {
            0nat
        } else {
            1nat
        }),
        dedupe_on_line_spec(st, line).0.fuzzy == st.fuzzy,
{
    let key = normalize_spec(encode_utf8(line), st.fuzzy);
    if st.run is Some && st.run->0.key == key {
        assert(accounted_lines(Seq::<Seq<char>>::empty()) == 0);
    } else {
        lemma_flush_accounts(st);
        let (s1, o1) = flush_run_spec(st);
        lemma_bump_accounts(s1, key);
        let (s2, hit) = bump_spec(s1, key);
        if !hit && key.len() > 0 {
            assert(!all_space(line));
            reveal_strlit("[Repeated ");
            reveal_strlit("[+");
        }
    }
}

/// Lines fed in order move the accounting on by the non-blank lines among
/// them.
proof fn lemma_lines_account(st: DedupeModel, lines: Seq<Seq<char>>)
    requires
        run_plain(st),
        forall|i: int| 0 <= i < lines.len() ==> plain_line(#[trigger] lines[i], st.fuzzy),
        pending_count(st) + lines.len() + 1 < usize::MAX,
    ensures
        run_plain(dedupe_lines(st, lines).0),
        accounted_lines(dedupe_lines(st, lines).1) + pending_count(dedupe_lines(st, lines).0)
            == pending_count(st) + nonblank_count(lines),
        dedupe_lines(st, lines).0.fuzzy == st.fuzzy,
        nonblank_count(lines) <= lines.len(),
    decreases lines.len(),
{
    if lines.len() > 0 {
        let p = lines.drop_last();
        assert forall|i: int| 0 <= i < p.len() implies plain_line(#[trigger] p[i], st.fuzzy) by {
            assert(p[i] == lines[i]);
        }
        lemma_lines_account(st, p);
        let (s1, o1) = dedupe_lines(st, p);
        assert(plain_line(lines[lines.len() - 1], st.fuzzy));
        lemma_step_accounts(s1, lines.last());
        lemma_lines_add(o1, dedupe_on_line_spec(s1, lines.last()).1);
    }
}

proof fn lemma_drain_all_accounts(st: DedupeModel)
    ensures
        accounted_lines(drain_all_spec(st).1) == extras(st.window),
        drain_all_spec(st).0.window.len() == 0,
        drain_all_spec(st).0.run == st.run,
    decreases st.window.len(),
{
    if st.window.len() > 0 {
        let e = st.window[0];
        let s1 = DedupeModel { window: st.window.drop_first(), ..st };
        lemma_extras_first(st.window);
        let (s2, o2) = if e.extra > 0 {
            emit_spec(s1, extra_note(e.extra, e.sample))
        } else {
            (s1, Seq::<Seq<char>>::empty())
        };
        if e.extra > 0 {
            lemma_emit_accounts(s1, extra_note(e.extra, e.sample));
            lemma_stands_for_notes(e.extra, e.sample);
        }
        lemma_drain_all_accounts(s2);
        lemma_lines_add(o2, drain_all_spec(s2).1);
    } else {
        assert(accounted_lines(Seq::<Seq<char>>::empty()) == 0);
    }
}

/// Every non-blank line is accounted for: fed to a fresh deduplicator and
/// flushed at the end, the non-blank input lines number exactly what the
/// output stands for, each repeat note counting the lines it folded, each
/// windowed-repeat note the repeats it reports, each other non-blank line
/// itself. (The lines must not look like notes themselves, and must be blank
/// exactly when their key is empty.)
pub proof fn lemma_notes_account_for_every_line(st: DedupeModel, lines: Seq<Seq<char>>)
    requires
        st.run is None,
        st.window.len() == 0,
        forall|i: int| 0 <= i < lines.len() ==> plain_line(#[trigger] lines[i], st.fuzzy),
        lines.len() + 1 < usize::MAX,
    ensures
        accounted_lines(
            dedupe_lines(st, lines).1 + dedupe_finish_spec(dedupe_lines(st, lines).0).1,
        ) == nonblank_count(lines),
{
    assert(extras(st.window) == 0);
    lemma_lines_account(st, lines);
    let (s1, o1) = dedupe_lines(st, lines);
    lemma_flush_accounts(s1);
    let (s2, o2) = flush_run_spec(s1);
    lemma_drain_all_accounts(s2);
    lemma_lines_add(o2, drain_all_spec(s2).1);
    lemma_lines_add(o1, dedupe_finish_spec(s1).1);
}

} // verus!
