//! Streaming line processors and the chain that runs them.

use vstd::prelude::*;

pub mod ansi;
pub mod dedupe;
pub mod diff;
pub mod stacktrace;

use self::ansi::{clean_spec, AnsiStripper};
use self::dedupe::{
    all_accounted, dedupe_finish_spec, dedupe_on_line_spec, dedupe_pending, is_note,
    lemma_dedupe_step_in_order, lemma_step_accounted, run_ok, DedupeModel, Deduper,
};
use self::diff::{
    all_diff_kept, body_ok, diff_inv, diff_on_line_spec, diff_pending, flush_file_spec,
    is_file_note, is_hunk_header, lemma_diff_step_in_order, lemma_diff_step_kept, DiffMinimizer,
    DiffModel,
};
use self::stacktrace::{
    all_kept_or_marker, finish_spec, frame_lines, held_ok, is_marker, lemma_stack_step_in_order,
    lemma_step_kept, on_line_spec, stack_inv, stack_pending, FrameModel, Mode, StackFolder,
    StackModel,
};
use crate::detector::FormatType;
use crate::text::{
    is_subseq, lemma_subseq_concat, lemma_subseq_empty, lemma_subseq_prefix, lemma_subseq_refl,
    lemma_subseq_trans, lines_view, push_lines,
};
use crate::utils::stats::ReductionStats;

verus! {

/// Destination for lines.
pub trait LineSink {
    /// Every line emitted so far, in order.
    spec fn emitted(&self) -> Seq<Seq<char>>;

    fn emit(&mut self, line: &str)
        ensures
            final(self).emitted() == old(self).emitted().push(line@),
    ;
}

/// A streaming transformation over lines.
///
/// A processor may emit zero, one or many lines per input line; state it
/// holds across lines (an open dedupe run, a half-parsed trace) is released in
/// [`LineProcessor::finish`]. The processors of this crate state exactly what
/// they emit in their own contracts.
pub trait LineProcessor {
    fn on_line(&mut self, line: &str, out: &mut Vec<String>);

    /// Flush pending state at end of input.
    fn finish(&mut self, out: &mut Vec<String>) {
    }

    fn name(&self) -> &'static str;

    /// Lines worth surfacing separately (e.g. the exception a trace ended on).
    fn summary(&self) -> (r: Vec<String>)
        default_ensures
            r@.len() == 0,
    {
        Vec::new()
    }
}

/// Whole-string interface for processors that take their input in one piece.
pub trait LogProcessor {
    fn process(&mut self, input: &str) -> ProcessedOutput;
}

/// Result of a compression run.
#[derive(Debug, Clone, Default)]
pub struct ProcessedOutput {
    pub content: String,
    pub original_line_count: usize,
    pub processed_line_count: usize,
    pub detected_type: FormatType,
    /// Error lines the stack-trace processor considered the root cause.
    pub error_summary: Vec<String>,
    pub stats: ReductionStats,
}

// ---------------------------------------------------------------------------
// Sinks
// ---------------------------------------------------------------------------

/// A line buffer that keeps its slots across resets: after a reset, emitted
/// lines overwrite the old slots before any new slot is added.
#[derive(Debug)]
pub struct VecSink {
    lines: Vec<String>,
    len: usize,
}

impl VecSink {
    /// How many slots are in use.
    closed spec fn used(self) -> int {
        if self.len <= self.lines@.len() {
            self.len as int
        } else {
            self.lines@.len() as int
        }
    }

    /// The lines emitted since the last reset.
    pub closed spec fn contents(self) -> Seq<Seq<char>> {
        lines_view(self.lines@.take(self.used()))
    }

    /// How many line slots the buffer holds.
    pub closed spec fn spec_slots(self) -> nat {
        self.lines@.len()
    }

    pub fn new() -> (s: Self)
        ensures
            s.contents() == Seq::<Seq<char>>::empty(),
            s.spec_slots() == 0,
    {
        let s = VecSink { lines: Vec::new(), len: 0 };
        proof {
            assert(s.lines@.take(0) =~= Seq::<String>::empty());
        }
        s
    }

    /// Forget the lines, keep the slots.
    pub fn reset(&mut self)
        ensures
            final(self).contents() == Seq::<Seq<char>>::empty(),
            final(self).spec_slots() == old(self).spec_slots(),
    {
        self.len = 0;
        proof {
            assert(self.lines@.take(0) =~= Seq::<String>::empty());
        }
    }

    fn used_len(&self) -> (n: usize)
        ensures
            n == self.used(),
    {
        if self.len <= self.lines.len() {
            self.len
        } else {
            self.lines.len()
        }
    }

    pub fn as_slice(&self) -> (r: &[String])
        ensures
            lines_view(r@) == self.contents(),
    {
        let n = self.used_len();
        vstd::slice::slice_subrange(self.lines.as_slice(), 0, n)
    }

    pub fn is_empty(&self) -> (b: bool)
        ensures
            b == (self.contents().len() == 0),
    {
        self.used_len() == 0
    }

    /// How many line slots the buffer holds, used or not.
    pub fn slots(&self) -> (n: usize)
        ensures
            n == self.spec_slots(),
    {
        self.lines.len()
    }
}

impl Default for VecSink {
    fn default() -> (s: Self)
        ensures
            s.contents() == Seq::<Seq<char>>::empty(),
            s.spec_slots() == 0,
    {
        VecSink::new()
    }
}

impl LineSink for VecSink {
    open spec fn emitted(&self) -> Seq<Seq<char>> {
        self.contents()
    }

    fn emit(&mut self, line: &str)
        ensures
            final(self).spec_slots() == if old(self).contents().len() < old(self).spec_slots() {
                old(self).spec_slots()
            } else {
                old(self).spec_slots() + 1
            },
    {
        let ghost before = self.lines@;
        let n = self.used_len();
        if n < self.lines.len() {
            self.lines[n] = line.to_owned();
            self.len = n + 1;
        } else {
            self.lines.push(line.to_owned());
            self.len = self.lines.len();
        }
        proof {
            assert(self.lines@.take(n + 1) =~= before.take(n as int).push(self.lines@[n as int]));
            assert(lines_view(self.lines@.take(n + 1)) =~= lines_view(before.take(n as int)).push(
                line@,
            ));
        }
    }
}

impl LineSink for Vec<String> {
    open spec fn emitted(&self) -> Seq<Seq<char>> {
        lines_view(self@)
    }

    fn emit(&mut self, line: &str) {
        self.push(line.to_owned());
        proof {
            assert(lines_view(final(self)@) =~= lines_view(old(self)@).push(line@));
        }
    }
}

// ---------------------------------------------------------------------------
// Stages
// ---------------------------------------------------------------------------

/// One step of a [`Chain`]: one of this crate's processors, or any other.
pub enum Stage {
    Ansi(AnsiStripper),
    Stack(StackFolder),
    Dedupe(Deduper),
    Diff(DiffMinimizer),
    Custom(Box<dyn LineProcessor>),
}

/// What a stage is, for the contracts: this crate's processors by their
/// models; any other processor is opaque.
pub enum StageModel {
    Ansi(bool),
    Stack(StackModel),
    Dedupe(DedupeModel),
    Diff(DiffModel),
    Custom,
}

impl View for Stage {
    type V = StageModel;

    open spec fn view(&self) -> StageModel {
        match self {
            Stage::Ansi(a) => StageModel::Ansi(a.spec_collapse_cr()),
            Stage::Stack(s) => StageModel::Stack(s@),
            Stage::Dedupe(d) => StageModel::Dedupe(d@),
            Stage::Diff(d) => StageModel::Diff(d@),
            Stage::Custom(_) => StageModel::Custom,
        }
    }
}

/// A stage and the lines it emits for one input line.
pub open spec fn stage_line_spec(m: StageModel, line: Seq<char>) -> (StageModel, Seq<Seq<char>>) {
    match m {
        StageModel::Ansi(c) => (m, seq![clean_spec(c, line)]),
        StageModel::Stack(s) => {
            let r = on_line_spec(s, line);
            (StageModel::Stack(r.0), r.1)
        },
        StageModel::Dedupe(d) => {
            let r = dedupe_on_line_spec(d, line);
            (StageModel::Dedupe(r.0), r.1)
        },
        StageModel::Diff(d) => {
            let r = diff_on_line_spec(d, line);
            (StageModel::Diff(r.0), r.1)
        },
        StageModel::Custom => (m, Seq::empty()),
    }
}

/// A stage and the lines it emits at end of input.
pub open spec fn stage_finish_spec(m: StageModel) -> (StageModel, Seq<Seq<char>>) {
    match m {
        StageModel::Stack(s) => {
            let r = finish_spec(s);
            (StageModel::Stack(r.0), r.1)
        },
        StageModel::Dedupe(d) => {
            let r = dedupe_finish_spec(d);
            (StageModel::Dedupe(r.0), r.1)
        },
        StageModel::Diff(d) => {
            let r = flush_file_spec(d);
            (StageModel::Diff(r.0), r.1)
        },
        _ => (m, Seq::empty()),
    }
}

/// The lines a stage surfaces as its summary.
pub open spec fn stage_summary_spec(m: StageModel) -> Seq<Seq<char>> {
    match m {
        StageModel::Stack(s) => s.summary,
        _ => Seq::empty(),
    }
}

/// One stage fed `lines` in order.
pub open spec fn run_stage(m: StageModel, lines: Seq<Seq<char>>) -> (StageModel, Seq<Seq<char>>)
    decreases lines.len(),
{
    if lines.len() == 0 {
        (m, Seq::empty())
    } else {
        let a = run_stage(m, lines.drop_last());
        let b = stage_line_spec(a.0, lines.last());
        (b.0, a.1 + b.1)
    }
}

/// The stages from `stage` on fed `lines`: each stage's output is the next
/// one's input, and what leaves the last stage is the result.
pub open spec fn feed_spec(ms: Seq<StageModel>, stage: nat, lines: Seq<Seq<char>>) -> (
    Seq<StageModel>,
    Seq<Seq<char>>,
)
    decreases ms.len() - stage,
{
    if stage >= ms.len() {
        (ms, lines)
    } else {
        let r = run_stage(ms[stage as int], lines);
        let ms1 = ms.update(stage as int, r.0);
        if r.1.len() == 0 {
            (ms1, Seq::empty())
        } else {
            feed_spec(ms1, stage + 1, r.1)
        }
    }
}

/// Every stage from `stage` on flushed in turn, each one's tail flowing
/// through the stages after it.
pub open spec fn finish_from(ms: Seq<StageModel>, stage: nat) -> (Seq<StageModel>, Seq<Seq<char>>)
    decreases ms.len() - stage,
{
    if stage >= ms.len() {
        (ms, Seq::empty())
    } else {
        let f = stage_finish_spec(ms[stage as int]);
        let ms1 = ms.update(stage as int, f.0);
        let g = if f.1.len() == 0 {
            (ms1, Seq::empty())
        } else {
            feed_spec(ms1, stage + 1, f.1)
        };
        proof {
            lemma_feed_len(ms1, stage + 1, f.1);
        }
        let h = finish_from(g.0, stage + 1);
        (h.0, g.1 + h.1)
    }
}

/// The summaries of the stages, in order.
pub open spec fn summary_spec(ms: Seq<StageModel>) -> Seq<Seq<char>>
    decreases ms.len(),
{
    if ms.len() == 0 {
        Seq::empty()
    } else {
        summary_spec(ms.drop_last()) + stage_summary_spec(ms.last())
    }
}

/// No stage is opaque.
pub open spec fn all_known(ms: Seq<StageModel>) -> bool {
    forall|i: int| 0 <= i < ms.len() ==> !(#[trigger] ms[i] is Custom)
}

pub proof fn lemma_run_stage_known(m: StageModel, lines: Seq<Seq<char>>)
    ensures
        (m is Custom) == (run_stage(m, lines).0 is Custom),
    decreases lines.len(),
{
    if lines.len() > 0 {
        lemma_run_stage_known(m, lines.drop_last());
    }
}

pub proof fn lemma_feed_len(ms: Seq<StageModel>, stage: nat, lines: Seq<Seq<char>>)
    ensures
        feed_spec(ms, stage, lines).0.len() == ms.len(),
        all_known(ms) ==> all_known(feed_spec(ms, stage, lines).0),
    decreases ms.len() - stage,
{
    if stage < ms.len() {
        let r = run_stage(ms[stage as int], lines);
        lemma_run_stage_known(ms[stage as int], lines);
        let ms1 = ms.update(stage as int, r.0);
        assert(all_known(ms) ==> all_known(ms1));
        if r.1.len() > 0 {
            lemma_feed_len(ms1, stage + 1, r.1);
        }
    }
}

pub proof fn lemma_finish_len(ms: Seq<StageModel>, stage: nat)
    ensures
        finish_from(ms, stage).0.len() == ms.len(),
        all_known(ms) ==> all_known(finish_from(ms, stage).0),
    decreases ms.len() - stage,
{
    if stage < ms.len() {
        let f = stage_finish_spec(ms[stage as int]);
        let ms1 = ms.update(stage as int, f.0);
        assert(all_known(ms) ==> all_known(ms1));
        lemma_feed_len(ms1, stage + 1, f.1);
        let g = if f.1.len() == 0 {
            (ms1, Seq::empty())
        } else {
            feed_spec(ms1, stage + 1, f.1)
        };
        lemma_finish_len(g.0, stage + 1);
    }
}

// ---------------------------------------------------------------------------
// What survives a chain
// ---------------------------------------------------------------------------

/// A line a stage of this crate writes in place of lines it dropped: the
/// blank line a blank run collapses to, a repeat note, an omitted-frames
/// marker, a recomputed hunk header, or a skipped-file marker.
pub open spec fn marker_line(l: Seq<char>) -> bool {
    ||| l.len() == 0
    ||| is_note(l)
    ||| is_marker(l)
    ||| is_hunk_header(l)
    ||| is_file_note(l)
}

/// The lines of `ls` that are not marker lines, in order.
pub open spec fn content_of(ls: Seq<Seq<char>>) -> Seq<Seq<char>>
    decreases ls.len(),
{
    if ls.len() == 0 {
        Seq::empty()
    } else {
        content_of(ls.drop_last()) + if marker_line(ls.last()) {
            Seq::empty()
        } else {
            seq![ls.last()]
        }
    }
}

pub proof fn lemma_content_add(a: Seq<Seq<char>>, b: Seq<Seq<char>>)
    ensures
        content_of(a + b) == content_of(a) + content_of(b),
    decreases b.len(),
{
    if b.len() == 0 {
        assert(a + b =~= a);
        assert(content_of(a) + content_of(b) =~= content_of(a));
    } else {
        assert((a + b).drop_last() =~= a + b.drop_last());
        assert((a + b).last() == b.last());
        lemma_content_add(a, b.drop_last());
        let t = if marker_line(b.last()) {
            Seq::<Seq<char>>::empty()
        } else {
            seq![b.last()]
        };
        assert(content_of(a) + content_of(b.drop_last()) + t =~= content_of(a) + (content_of(
            b.drop_last(),
        ) + t));
    }
}

/// Marker lines leave no content.
pub proof fn lemma_content_of_markers(ls: Seq<Seq<char>>)
    requires
        forall|k: int| 0 <= k < ls.len() ==> marker_line(#[trigger] ls[k]),
    ensures
        content_of(ls) == Seq::<Seq<char>>::empty(),
    decreases ls.len(),
{
    if ls.len() > 0 {
        let p = ls.drop_last();
        assert forall|k: int| 0 <= k < p.len() implies marker_line(#[trigger] p[k]) by {
            assert(p[k] == ls[k]);
        }
        assert(marker_line(ls[ls.len() - 1]));
        lemma_content_of_markers(p);
    }
}

/// `q` holds of every marker line.
pub open spec fn admits_markers(q: spec_fn(Seq<char>) -> bool) -> bool {
    forall|l: Seq<char>| #[trigger] marker_line(l) ==> q(l)
}

/// What a stage holds back satisfies `q`.
pub open spec fn stage_ok(m: StageModel, q: spec_fn(Seq<char>) -> bool) -> bool {
    match m {
        StageModel::Dedupe(d) => run_ok(d, q),
        StageModel::Stack(s) => held_ok(s, q),
        StageModel::Diff(d) => body_ok(d, q),
        _ => true,
    }
}

/// What a stage writes for `l` satisfies `q` when `l` does; the ANSI stage
/// rewrites `l`, so there it is the cleaned line that must satisfy `q`.
pub open spec fn accepts(m: StageModel, l: Seq<char>, q: spec_fn(Seq<char>) -> bool) -> bool {
    match m {
        StageModel::Ansi(c) => q(clean_spec(c, l)),
        _ => q(l),
    }
}

pub open spec fn all_q(o: Seq<Seq<char>>, q: spec_fn(Seq<char>) -> bool) -> bool {
    forall|k: int| 0 <= k < o.len() ==> q(#[trigger] o[k])
}

pub proof fn lemma_all_q_add(a: Seq<Seq<char>>, b: Seq<Seq<char>>, q: spec_fn(Seq<char>) -> bool)
    requires
        all_q(a, q),
        all_q(b, q),
    ensures
        all_q(a + b, q),
{
    assert forall|k: int| 0 <= k < (a + b).len() implies q(#[trigger] (a + b)[k]) by {
        if k < a.len() {
            assert((a + b)[k] == a[k]);
        } else {
            assert((a + b)[k] == b[k - a.len()]);
        }
    }
}

/// One stage, one line: the stage's output satisfies `q` and what it holds
/// back keeps satisfying it; so does what it writes at the end of input.
proof fn lemma_stage_keeps(m: StageModel, l: Seq<char>, q: spec_fn(Seq<char>) -> bool)
    requires
        admits_markers(q),
        !(m is Custom),
        stage_ok(m, q),
        accepts(m, l, q),
    ensures
        stage_ok(stage_line_spec(m, l).0, q),
        all_q(stage_line_spec(m, l).1, q),
        stage_line_spec(m, l).0 is Ansi == m is Ansi,
        !(stage_line_spec(m, l).0 is Custom),
{
    match m {
        StageModel::Ansi(c) => {
            assert(seq![clean_spec(c, l)][0] == clean_spec(c, l));
        },
        StageModel::Stack(st) => {
            lemma_step_kept(st, l, q);
            let o = on_line_spec(st, l).1;
            assert forall|k: int| 0 <= k < o.len() implies q(#[trigger] o[k]) by {
                assert(all_kept_or_marker(o, q));
                if !q(o[k]) {
                    assert(marker_line(o[k]));
                }
            }
        },
        StageModel::Dedupe(d) => {
            lemma_step_accounted(d, l, q);
            let o = dedupe_on_line_spec(d, l).1;
            assert forall|k: int| 0 <= k < o.len() implies q(#[trigger] o[k]) by {
                assert(all_accounted(o, q));
                if !q(o[k]) {
                    assert(marker_line(o[k]));
                }
            }
        },
        StageModel::Diff(d) => {
            lemma_diff_step_kept(d, l, q);
            let o = diff_on_line_spec(d, l).1;
            assert forall|k: int| 0 <= k < o.len() implies q(#[trigger] o[k]) by {
                assert(all_diff_kept(o, q));
                if !q(o[k]) {
                    assert(marker_line(o[k]));
                }
            }
        },
        StageModel::Custom => {},
    }
}

/// One stage at the end of input: what it writes satisfies `q`, and what it
/// holds back keeps satisfying it.
proof fn lemma_stage_finish_keeps(m: StageModel, q: spec_fn(Seq<char>) -> bool)
    requires
        admits_markers(q),
        !(m is Custom),
        stage_ok(m, q),
    ensures
        stage_ok(stage_finish_spec(m).0, q),
        all_q(stage_finish_spec(m).1, q),
        stage_finish_spec(m).0 is Ansi == m is Ansi,
        !(stage_finish_spec(m).0 is Custom),
{
    let e = Seq::<char>::empty();
    assert(marker_line(e));
    match m {
        StageModel::Stack(st) => {
            lemma_step_kept(st, e, q);
            let f = finish_spec(st).1;
            assert forall|k: int| 0 <= k < f.len() implies q(#[trigger] f[k]) by {
                assert(all_kept_or_marker(f, q));
                if !q(f[k]) {
                    assert(marker_line(f[k]));
                }
            }
        },
        StageModel::Dedupe(d) => {
            lemma_step_accounted(d, e, q);
            let f = dedupe_finish_spec(d).1;
            assert forall|k: int| 0 <= k < f.len() implies q(#[trigger] f[k]) by {
                assert(all_accounted(f, q));
                if !q(f[k]) {
                    assert(marker_line(f[k]));
                }
            }
        },
        StageModel::Diff(d) => {
            lemma_diff_step_kept(d, e, q);
            let f = flush_file_spec(d).1;
            assert forall|k: int| 0 <= k < f.len() implies q(#[trigger] f[k]) by {
                assert(all_diff_kept(f, q));
                if !q(f[k]) {
                    assert(marker_line(f[k]));
                }
            }
        },
        _ => {},
    }
}

proof fn lemma_run_stage_keeps(m: StageModel, lines: Seq<Seq<char>>, q: spec_fn(Seq<char>) -> bool)
    requires
        admits_markers(q),
        !(m is Custom),
        stage_ok(m, q),
        forall|k: int| 0 <= k < lines.len() ==> accepts(m, #[trigger] lines[k], q),
    ensures
        stage_ok(run_stage(m, lines).0, q),
        all_q(run_stage(m, lines).1, q),
        run_stage(m, lines).0 is Ansi == m is Ansi,
        m is Ansi ==> run_stage(m, lines).0 == m,
        !(run_stage(m, lines).0 is Custom),
        forall|l: Seq<char>| accepts(m, l, q) ==> #[trigger] accepts(run_stage(m, lines).0, l, q),
    decreases lines.len(),
{
    if lines.len() > 0 {
        let p = lines.drop_last();
        assert forall|k: int| 0 <= k < p.len() implies accepts(m, #[trigger] p[k], q) by {
            assert(p[k] == lines[k]);
        }
        lemma_run_stage_keeps(m, p, q);
        let a = run_stage(m, p);
        assert(accepts(m, lines[lines.len() - 1], q));
        lemma_stage_keeps(a.0, lines.last(), q);
        lemma_all_q_add(a.1, stage_line_spec(a.0, lines.last()).1, q);
    }
}

/// No stage but the first strips ANSI codes.
pub open spec fn ansi_first_only(ms: Seq<StageModel>) -> bool {
    forall|i: int| 1 <= i < ms.len() ==> !(#[trigger] ms[i] is Ansi)
}

/// Every stage holds back only lines that satisfy `q`.
pub open spec fn stages_ok(ms: Seq<StageModel>, q: spec_fn(Seq<char>) -> bool) -> bool {
    forall|i: int| 0 <= i < ms.len() ==> stage_ok(#[trigger] ms[i], q)
}

/// A line entering at `stage` is accepted there.
pub open spec fn accepts_at(
    ms: Seq<StageModel>,
    stage: int,
    l: Seq<char>,
    q: spec_fn(Seq<char>) -> bool,
) -> bool {
    if stage < ms.len() {
        accepts(ms[stage], l, q)
    } else {
        q(l)
    }
}

pub proof fn lemma_feed_keeps(
    ms: Seq<StageModel>,
    stage: nat,
    lines: Seq<Seq<char>>,
    q: spec_fn(Seq<char>) -> bool,
)
    requires
        admits_markers(q),
        all_known(ms),
        stages_ok(ms, q),
        ansi_first_only(ms),
        forall|k: int| 0 <= k < lines.len() ==> accepts_at(ms, stage as int, #[trigger] lines[k], q),
    ensures
        all_known(feed_spec(ms, stage, lines).0),
        stages_ok(feed_spec(ms, stage, lines).0, q),
        ansi_first_only(feed_spec(ms, stage, lines).0),
        feed_spec(ms, stage, lines).0.len() == ms.len(),
        all_q(feed_spec(ms, stage, lines).1, q),
        forall|i: int| 0 <= i < stage && i < ms.len() ==> #[trigger] feed_spec(ms, stage, lines).0[i] == ms[i],
        forall|l: Seq<char>|
            accepts_at(ms, stage as int, l, q) ==> #[trigger] accepts_at(
                feed_spec(ms, stage, lines).0,
                stage as int,
                l,
                q,
            ),
    decreases ms.len() - stage,
{
    if stage >= ms.len() {
        assert forall|k: int| 0 <= k < lines.len() implies q(#[trigger] lines[k]) by {
            assert(accepts_at(ms, stage as int, lines[k], q));
        }
    } else {
        let m = ms[stage as int];
        assert(!(m is Custom));
        assert(stage_ok(m, q));
        assert forall|k: int| 0 <= k < lines.len() implies accepts(m, #[trigger] lines[k], q) by {
            assert(accepts_at(ms, stage as int, lines[k], q));
        }
        lemma_run_stage_keeps(m, lines, q);
        let r = run_stage(m, lines);
        let ms1 = ms.update(stage as int, r.0);
        assert(all_known(ms1)) by {
            assert forall|i: int| 0 <= i < ms1.len() implies !(#[trigger] ms1[i] is Custom) by {
                if i != stage {
                    assert(ms1[i] == ms[i]);
                }
            }
        }
        assert(stages_ok(ms1, q)) by {
            assert forall|i: int| 0 <= i < ms1.len() implies stage_ok(#[trigger] ms1[i], q) by {
                if i != stage {
                    assert(ms1[i] == ms[i]);
                }
            }
        }
        assert(ansi_first_only(ms1)) by {
            assert forall|i: int| 1 <= i < ms1.len() implies !(#[trigger] ms1[i] is Ansi) by {
                if i != stage {
                    assert(ms1[i] == ms[i]);
                } else {
                    assert(!(ms[i] is Ansi));
                }
            }
        }
        if r.1.len() > 0 {
            assert forall|k: int| 0 <= k < r.1.len() implies accepts_at(
                ms1,
                stage + 1int,
                #[trigger] r.1[k],
                q,
            ) by {
                assert(q(r.1[k]));
                if stage + 1 < ms1.len() {
                    assert(!(ms1[stage + 1int] is Ansi));
                }
            }
            lemma_feed_keeps(ms1, stage + 1, r.1, q);
            let fin = feed_spec(ms1, stage + 1, r.1).0;
            assert(fin[stage as int] == ms1[stage as int]);
        }
    }
}

pub proof fn lemma_finish_keeps(ms: Seq<StageModel>, stage: nat, q: spec_fn(Seq<char>) -> bool)
    requires
        admits_markers(q),
        all_known(ms),
        stages_ok(ms, q),
        ansi_first_only(ms),
    ensures
        all_q(finish_from(ms, stage).1, q),
    decreases ms.len() - stage,
{
    if stage < ms.len() {
        let m = ms[stage as int];
        assert(!(m is Custom));
        assert(stage_ok(m, q));
        lemma_stage_finish_keeps(m, q);
        let f = stage_finish_spec(m);
        let ms1 = ms.update(stage as int, f.0);
        assert(all_known(ms1)) by {
            assert forall|i: int| 0 <= i < ms1.len() implies !(#[trigger] ms1[i] is Custom) by {
                if i != stage {
                    assert(ms1[i] == ms[i]);
                }
            }
        }
        assert(stages_ok(ms1, q)) by {
            assert forall|i: int| 0 <= i < ms1.len() implies stage_ok(#[trigger] ms1[i], q) by {
                if i != stage {
                    assert(ms1[i] == ms[i]);
                }
            }
        }
        assert(ansi_first_only(ms1)) by {
            assert forall|i: int| 1 <= i < ms1.len() implies !(#[trigger] ms1[i] is Ansi) by {
                if i != stage {
                    assert(ms1[i] == ms[i]);
                } else {
                    assert(!(ms[i] is Ansi));
                }
            }
        }
        let g = if f.1.len() == 0 {
            (ms1, Seq::<Seq<char>>::empty())
        } else {
            feed_spec(ms1, stage + 1, f.1)
        };
        if f.1.len() > 0 {
            assert forall|k: int| 0 <= k < f.1.len() implies accepts_at(
                ms1,
                stage + 1int,
                #[trigger] f.1[k],
                q,
            ) by {
                assert(q(f.1[k]));
                if stage + 1 < ms1.len() {
                    assert(!(ms1[stage + 1int] is Ansi));
                }
            }
            lemma_feed_keeps(ms1, stage + 1, f.1, q);
        }
        lemma_feed_len(ms1, stage + 1, f.1);
        lemma_finish_keeps(g.0, stage + 1, q);
        lemma_all_q_add(g.1, finish_from(g.0, stage + 1).1, q);
    }
}

// ---------------------------------------------------------------------------
// Order through a chain
// ---------------------------------------------------------------------------

/// The lines a stage holds back, in the order they came.
pub open spec fn stage_pending(m: StageModel) -> Seq<Seq<char>> {
    match m {
        StageModel::Stack(s) => stack_pending(s),
        StageModel::Dedupe(d) => dedupe_pending(d),
        StageModel::Diff(d) => diff_pending(d),
        _ => Seq::empty(),
    }
}

/// A stage outside a block holds nothing back.
pub open spec fn stage_inv(m: StageModel) -> bool {
    match m {
        StageModel::Stack(s) => stack_inv(s),
        StageModel::Diff(d) => diff_inv(d),
        _ => true,
    }
}

/// What the stage works on for an input line: the ANSI stage on the line
/// it cleans, every other stage on the line itself.
pub open spec fn stage_input(m: StageModel, l: Seq<char>) -> Seq<char> {
    match m {
        StageModel::Ansi(c) => clean_spec(c, l),
        _ => l,
    }
}

pub open spec fn stage_inputs(m: StageModel, ls: Seq<Seq<char>>) -> Seq<Seq<char>> {
    ls.map_values(|l: Seq<char>| stage_input(m, l))
}

/// The lines the stages from `k` on hold back, in the order they came: the
/// later a stage, the earlier the lines it holds.
pub open spec fn pending_from(ms: Seq<StageModel>, k: int) -> Seq<Seq<char>>
    decreases ms.len() - k,
{
    if k < 0 || k >= ms.len() {
        Seq::empty()
    } else {
        pending_from(ms, k + 1) + stage_pending(ms[k])
    }
}

pub open spec fn all_inv(ms: Seq<StageModel>) -> bool {
    forall|i: int| 0 <= i < ms.len() ==> stage_inv(#[trigger] ms[i])
}

/// `a` and `b` have the same stages from `k` on.
pub open spec fn same_from(a: Seq<StageModel>, b: Seq<StageModel>, k: int) -> bool {
    a.len() == b.len() && forall|i: int| k <= i < a.len() ==> #[trigger] a[i] == b[i]
}

proof fn lemma_pending_from_same(a: Seq<StageModel>, b: Seq<StageModel>, k: int)
    requires
        0 <= k,
        same_from(a, b, k),
    ensures
        pending_from(a, k) == pending_from(b, k),
    decreases a.len() - k,
{
    if k < a.len() {
        lemma_pending_from_same(a, b, k + 1);
    }
}

/// The ordered step of a stage: what it writes, followed by what it holds
/// back, is a subsequence of what it held before followed by its input.
pub open spec fn ordered_step(
    m: StageModel,
    r: StageModel,
    o: Seq<Seq<char>>,
    ins: Seq<Seq<char>>,
) -> bool {
    is_subseq(
        content_of(o) + content_of(stage_pending(r)),
        content_of(stage_pending(m)) + content_of(ins),
    )
}

proof fn lemma_stage_in_order(m: StageModel, l: Seq<char>)
    requires
        !(m is Custom),
        stage_inv(m),
    ensures
        ordered_step(m, stage_line_spec(m, l).0, stage_line_spec(m, l).1, seq![stage_input(m, l)]),
        stage_inv(stage_line_spec(m, l).0),
        is_subseq(
            content_of(stage_finish_spec(m).1) + content_of(stage_pending(stage_finish_spec(m).0)),
            content_of(stage_pending(m)),
        ),
        stage_inv(stage_finish_spec(m).0),
{
    match m {
        StageModel::Ansi(c) => {
            let x = seq![clean_spec(c, l)];
            assert(content_of(Seq::<Seq<char>>::empty()) =~= Seq::<Seq<char>>::empty());
            assert(content_of(x) + Seq::<Seq<char>>::empty() =~= Seq::<Seq<char>>::empty()
                + content_of(x));
            lemma_subseq_refl(content_of(x));
            lemma_subseq_refl(Seq::<Seq<char>>::empty());
            assert(Seq::<Seq<char>>::empty() + Seq::<Seq<char>>::empty() =~= Seq::<Seq<char>>::empty());
        },
        StageModel::Stack(st) => {
            lemma_stack_step_in_order(st, l);
        },
        StageModel::Dedupe(d) => {
            lemma_dedupe_step_in_order(d, l);
            let f = dedupe_finish_spec(d);
            assert(content_of(Seq::<Seq<char>>::empty()) =~= Seq::<Seq<char>>::empty());
            assert(content_of(f.1) + content_of(dedupe_pending(f.0)) =~= content_of(f.1));
        },
        StageModel::Diff(d) => {
            lemma_diff_step_in_order(d, l);
        },
        StageModel::Custom => {},
    }
}

#[verifier::spinoff_prover]
#[verifier::rlimit(40)]
proof fn lemma_run_stage_in_order(m: StageModel, lines: Seq<Seq<char>>)
    requires
        !(m is Custom),
        stage_inv(m),
    ensures
        ordered_step(m, run_stage(m, lines).0, run_stage(m, lines).1, stage_inputs(m, lines)),
        stage_inv(run_stage(m, lines).0),
        run_stage(m, lines).0 is Ansi == m is Ansi,
        m is Ansi ==> run_stage(m, lines).0 == m,
        !(run_stage(m, lines).0 is Custom),
    decreases lines.len(),
{
    if lines.len() == 0 {
        assert(stage_inputs(m, lines) =~= Seq::<Seq<char>>::empty());
        assert(content_of(Seq::<Seq<char>>::empty()) =~= Seq::<Seq<char>>::empty());
        assert(Seq::<Seq<char>>::empty() + content_of(stage_pending(m)) =~= content_of(
            stage_pending(m),
        ) + Seq::<Seq<char>>::empty());
        lemma_subseq_refl(content_of(stage_pending(m)));
    } else {
        let p = lines.drop_last();
        let l = lines.last();
        lemma_run_stage_in_order(m, p);
        let a = run_stage(m, p);
        lemma_stage_in_order(a.0, l);
        lemma_run_stage_keeps_kind(m, p);
        let b = stage_line_spec(a.0, l);
        let x = seq![stage_input(a.0, l)];
        assert(stage_input(a.0, l) == stage_input(m, l));
        assert(stage_inputs(m, lines) =~= stage_inputs(m, p) + x);
        let co = content_of(a.1);
        let cb = content_of(b.1);
        let pa = content_of(stage_pending(a.0));
        let pb = content_of(stage_pending(b.0));
        let p0 = content_of(stage_pending(m));
        let ip = content_of(stage_inputs(m, p));
        let cx = content_of(x);
        // co + cb + pb <= co + pa + cx <= p0 + ip + cx
        lemma_subseq_refl(co);
        lemma_subseq_concat(co, co, cb + pb, pa + cx);
        lemma_subseq_refl(cx);
        lemma_subseq_concat(co + pa, p0 + ip, cx, cx);
        assert(co + (pa + cx) =~= co + pa + cx);
        lemma_subseq_trans(co + (cb + pb), co + pa + cx, p0 + ip + cx);
        lemma_content_add(a.1, b.1);
        lemma_content_add(stage_inputs(m, p), x);
        assert(co + (cb + pb) =~= content_of(a.1 + b.1) + pb);
        assert(p0 + ip + cx =~= p0 + content_of(stage_inputs(m, lines)));
    }
}

proof fn lemma_run_stage_keeps_kind(m: StageModel, lines: Seq<Seq<char>>)
    ensures
        run_stage(m, lines).0 is Ansi == m is Ansi,
        m is Ansi ==> run_stage(m, lines).0 == m,
        run_stage(m, lines).0 is Custom == m is Custom,
    decreases lines.len(),
{
    if lines.len() > 0 {
        lemma_run_stage_keeps_kind(m, lines.drop_last());
    }
}

proof fn lemma_inputs_plain(m: StageModel, ls: Seq<Seq<char>>)
    requires
        !(m is Ansi),
    ensures
        stage_inputs(m, ls) == ls,
{
    assert(stage_inputs(m, ls) =~= ls);
}

/// What enters the stages from `stage` on, as the first of them sees it.
pub open spec fn entry_inputs(ms: Seq<StageModel>, stage: int, ls: Seq<Seq<char>>) -> Seq<Seq<char>> {
    if 0 <= stage < ms.len() {
        stage_inputs(ms[stage], ls)
    } else {
        ls
    }
}

pub proof fn lemma_feed_in_order(ms: Seq<StageModel>, stage: nat, lines: Seq<Seq<char>>)
    requires
        all_known(ms),
        all_inv(ms),
        ansi_first_only(ms),
    ensures
        is_subseq(
            content_of(feed_spec(ms, stage, lines).1) + content_of(
                pending_from(feed_spec(ms, stage, lines).0, stage as int),
            ),
            content_of(pending_from(ms, stage as int)) + content_of(
                entry_inputs(ms, stage as int, lines),
            ),
        ),
        all_known(feed_spec(ms, stage, lines).0),
        all_inv(feed_spec(ms, stage, lines).0),
        ansi_first_only(feed_spec(ms, stage, lines).0),
        feed_spec(ms, stage, lines).0.len() == ms.len(),
        forall|i: int| 0 <= i < stage && i < ms.len() ==> #[trigger] feed_spec(ms, stage, lines).0[i] == ms[i],
        stage < ms.len() && ms[stage as int] is Ansi ==> feed_spec(ms, stage, lines).0[stage as int]
            == ms[stage as int],
        stage < ms.len() ==> (feed_spec(ms, stage, lines).0[stage as int] is Ansi <==> ms[stage as int] is Ansi),
    decreases ms.len() - stage,
{
    let e = Seq::<Seq<char>>::empty();
    assert(content_of(e) =~= e);
    if stage >= ms.len() {
        assert(pending_from(ms, stage as int) =~= e);
        assert(content_of(lines) + content_of(e) =~= content_of(e) + content_of(lines));
        lemma_subseq_refl(content_of(lines));
    } else {
        let m = ms[stage as int];
        assert(!(m is Custom));
        assert(stage_inv(m));
        lemma_run_stage_in_order(m, lines);
        let r = run_stage(m, lines);
        let ms1 = ms.update(stage as int, r.0);
        assert(same_from(ms1, ms, stage + 1int));
        lemma_pending_from_same(ms1, ms, stage + 1int);
        let pft = content_of(pending_from(ms, stage + 1int));
        let pm = content_of(stage_pending(m));
        let pr = content_of(stage_pending(r.0));
        let ins = content_of(entry_inputs(ms, stage as int, lines));
        assert(all_known(ms1)) by {
            assert forall|i: int| 0 <= i < ms1.len() implies !(#[trigger] ms1[i] is Custom) by {
                if i != stage {
                    assert(ms1[i] == ms[i]);
                }
            }
        }
        assert(all_inv(ms1)) by {
            assert forall|i: int| 0 <= i < ms1.len() implies stage_inv(#[trigger] ms1[i]) by {
                if i != stage {
                    assert(ms1[i] == ms[i]);
                }
            }
        }
        assert(ansi_first_only(ms1)) by {
            assert forall|i: int| 1 <= i < ms1.len() implies !(#[trigger] ms1[i] is Ansi) by {
                if i != stage {
                    assert(ms1[i] == ms[i]);
                } else {
                    assert(!(ms[i] is Ansi));
                }
            }
        }
        lemma_content_add(pending_from(ms, stage + 1int), stage_pending(m));
        assert(pending_from(ms, stage as int) == pending_from(ms, stage + 1int) + stage_pending(m));
        // The stage itself: its output, then what it holds, came from what it
        // held and its input.
        lemma_subseq_refl(pft);
        if r.1.len() == 0 {
            assert(pending_from(ms1, stage as int) == pending_from(ms1, stage + 1int) + stage_pending(
                r.0,
            ));
            lemma_content_add(pending_from(ms1, stage + 1int), stage_pending(r.0));
            assert(content_of(r.1) =~= e);
            assert(e + pr =~= pr);
            lemma_subseq_concat(pft, pft, pr, pm + ins);
            assert(pft + (pm + ins) =~= pft + pm + ins);
            assert(e + (pft + pr) =~= pft + pr);
        } else {
            let cr = content_of(r.1);
            lemma_feed_in_order(ms1, stage + 1, r.1);
            let g = feed_spec(ms1, stage + 1, r.1);
            if stage + 1 < ms1.len() {
                assert(!(ms1[stage + 1int] is Ansi));
                lemma_inputs_plain(ms1[stage + 1int], r.1);
            }
            assert(entry_inputs(ms1, stage + 1int, r.1) == r.1);
            assert(g.0[stage as int] == ms1[stage as int]);
            assert(pending_from(g.0, stage as int) == pending_from(g.0, stage + 1int) + stage_pending(
                r.0,
            ));
            lemma_content_add(pending_from(g.0, stage + 1int), stage_pending(r.0));
            let cg = content_of(g.1);
            let pg = content_of(pending_from(g.0, stage + 1int));
            // cg + pg + pr <= pft + cr + pr <= pft + pm + ins
            lemma_subseq_refl(pr);
            lemma_subseq_concat(cg + pg, pft + cr, pr, pr);
            lemma_subseq_concat(pft, pft, cr + pr, pm + ins);
            assert(pft + cr + pr =~= pft + (cr + pr));
            lemma_subseq_trans(cg + pg + pr, pft + (cr + pr), pft + (pm + ins));
            assert(cg + (pg + pr) =~= cg + pg + pr);
            assert(pft + (pm + ins) =~= pft + pm + ins);
            assert(forall|i: int| 0 <= i < stage ==> #[trigger] g.0[i] == ms1[i]);
        }
    }
}

pub proof fn lemma_finish_in_order(ms: Seq<StageModel>, stage: nat)
    requires
        all_known(ms),
        all_inv(ms),
        ansi_first_only(ms),
    ensures
        is_subseq(
            content_of(finish_from(ms, stage).1) + content_of(
                pending_from(finish_from(ms, stage).0, stage as int),
            ),
            content_of(pending_from(ms, stage as int)),
        ),
        finish_from(ms, stage).0.len() == ms.len(),
        forall|i: int| 0 <= i < stage && i < ms.len() ==> #[trigger] finish_from(ms, stage).0[i] == ms[i],
    decreases ms.len() - stage,
{
    let e = Seq::<Seq<char>>::empty();
    assert(content_of(e) =~= e);
    if stage >= ms.len() {
        assert(pending_from(ms, stage as int) =~= e);
        lemma_subseq_refl(e);
        assert(e + e =~= e);
    } else {
        let m = ms[stage as int];
        assert(!(m is Custom));
        assert(stage_inv(m));
        lemma_stage_in_order(m, Seq::<char>::empty());
        let f = stage_finish_spec(m);
        let ms1 = ms.update(stage as int, f.0);
        assert(same_from(ms1, ms, stage + 1int));
        lemma_pending_from_same(ms1, ms, stage + 1int);
        assert(all_known(ms1)) by {
            assert forall|i: int| 0 <= i < ms1.len() implies !(#[trigger] ms1[i] is Custom) by {
                if i != stage {
                    assert(ms1[i] == ms[i]);
                } else {
                    assert(!(f.0 is Custom));
                }
            }
        }
        assert(all_inv(ms1)) by {
            assert forall|i: int| 0 <= i < ms1.len() implies stage_inv(#[trigger] ms1[i]) by {
                if i != stage {
                    assert(ms1[i] == ms[i]);
                }
            }
        }
        assert(ansi_first_only(ms1)) by {
            assert forall|i: int| 1 <= i < ms1.len() implies !(#[trigger] ms1[i] is Ansi) by {
                if i != stage {
                    assert(ms1[i] == ms[i]);
                } else {
                    assert(!(ms[i] is Ansi));
                }
            }
        }
        let g = if f.1.len() == 0 {
            (ms1, e)
        } else {
            feed_spec(ms1, stage + 1, f.1)
        };
        let pft = content_of(pending_from(ms, stage + 1int));
        let pm = content_of(stage_pending(m));
        let pf = content_of(stage_pending(f.0));
        let cf = content_of(f.1);
        // The feed of the stage's tail through the later stages.
        if f.1.len() == 0 {
            lemma_subseq_refl(pft);
            assert(pft + cf =~= pft);
        } else {
            lemma_feed_in_order(ms1, stage + 1, f.1);
            if stage + 1 < ms1.len() {
                assert(!(ms1[stage + 1int] is Ansi));
                lemma_inputs_plain(ms1[stage + 1int], f.1);
            }
            assert(entry_inputs(ms1, stage + 1int, f.1) == f.1);
        }
        let cg = content_of(g.1);
        let pg = content_of(pending_from(g.0, stage + 1int));
        assert(is_subseq(cg + pg, pft + cf));
        assert(all_known(g.0) && all_inv(g.0) && ansi_first_only(g.0) && g.0.len() == ms.len());
        assert(g.0[stage as int] == f.0);
        lemma_finish_in_order(g.0, stage + 1);
        let h = finish_from(g.0, stage + 1);
        let ch = content_of(h.1);
        let ph = content_of(pending_from(h.0, stage + 1int));
        assert(h.0[stage as int] == f.0);
        assert(pending_from(h.0, stage as int) == pending_from(h.0, stage + 1int) + stage_pending(f.0));
        lemma_content_add(pending_from(h.0, stage + 1int), stage_pending(f.0));
        lemma_content_add(g.1, h.1);
        lemma_content_add(pending_from(ms, stage + 1int), stage_pending(m));
        assert(finish_from(ms, stage) == (h.0, g.1 + h.1));
        // cg + ch + ph + pf <= cg + pg + pf <= pft + cf + pf <= pft + pm
        lemma_subseq_refl(cg);
        lemma_subseq_refl(pf);
        lemma_subseq_concat(cg, cg, ch + ph, pg);
        lemma_subseq_concat(cg + (ch + ph), cg + pg, pf, pf);
        lemma_subseq_concat(cg + pg, pft + cf, pf, pf);
        lemma_subseq_trans(cg + (ch + ph) + pf, cg + pg + pf, pft + cf + pf);
        lemma_subseq_refl(pft);
        assert(cf + pf == content_of(f.1) + content_of(stage_pending(f.0)));
        lemma_subseq_concat(pft, pft, cf + pf, pm);
        assert(pft + cf + pf =~= pft + (cf + pf));
        lemma_subseq_trans(cg + (ch + ph) + pf, pft + (cf + pf), pft + pm);
        assert(cg + (ch + ph) + pf =~= cg + ch + (ph + pf));
    }
}

proof fn lemma_stage_finish_empties(m: StageModel)
    requires
        !(m is Custom),
        stage_inv(m),
    ensures
        stage_pending(stage_finish_spec(m).0) == Seq::<Seq<char>>::empty(),
{
    match m {
        StageModel::Stack(st) => {
            assert(frame_lines(Seq::<FrameModel>::empty()) =~= Seq::<Seq<char>>::empty());
            if st.mode == Mode::Idle {
                assert(st.header + frame_lines(st.frames) =~= Seq::<Seq<char>>::empty());
            } else {
                assert(Seq::<Seq<char>>::empty() + frame_lines(Seq::<FrameModel>::empty())
                    =~= Seq::<Seq<char>>::empty());
            }
        },
        StageModel::Dedupe(d) => {
            lemma_dedupe_step_in_order(d, Seq::<char>::empty());
        },
        StageModel::Diff(d) => {
            assert(diff_pending(flush_file_spec(d).0) =~= Seq::<Seq<char>>::empty());
        },
        _ => {},
    }
}

/// Flushing from `stage` on leaves every stage from `stage` on holding
/// nothing back.
pub proof fn lemma_finish_empties(ms: Seq<StageModel>, stage: nat)
    requires
        all_known(ms),
        all_inv(ms),
        ansi_first_only(ms),
    ensures
        forall|i: int|
            stage <= i < ms.len() ==> #[trigger] stage_pending(finish_from(ms, stage).0[i])
                == Seq::<Seq<char>>::empty(),
    decreases ms.len() - stage,
{
    if stage < ms.len() {
        let e = Seq::<Seq<char>>::empty();
        let m = ms[stage as int];
        lemma_stage_in_order(m, Seq::<char>::empty());
        lemma_stage_finish_empties(m);
        let f = stage_finish_spec(m);
        let ms1 = ms.update(stage as int, f.0);
        assert(all_known(ms1)) by {
            assert forall|i: int| 0 <= i < ms1.len() implies !(#[trigger] ms1[i] is Custom) by {
                if i != stage {
                    assert(ms1[i] == ms[i]);
                }
            }
        }
        assert(all_inv(ms1)) by {
            assert forall|i: int| 0 <= i < ms1.len() implies stage_inv(#[trigger] ms1[i]) by {
                if i != stage {
                    assert(ms1[i] == ms[i]);
                }
            }
        }
        assert(ansi_first_only(ms1)) by {
            assert forall|i: int| 1 <= i < ms1.len() implies !(#[trigger] ms1[i] is Ansi) by {
                if i != stage {
                    assert(ms1[i] == ms[i]);
                } else {
                    assert(!(ms[i] is Ansi));
                }
            }
        }
        let g = if f.1.len() == 0 {
            (ms1, e)
        } else {
            feed_spec(ms1, stage + 1, f.1)
        };
        if f.1.len() > 0 {
            lemma_feed_in_order(ms1, stage + 1, f.1);
        }
        assert(g.0[stage as int] == f.0);
        lemma_finish_empties(g.0, stage + 1);
        lemma_finish_in_order(g.0, stage + 1);
        let h = finish_from(g.0, stage + 1);
        assert(finish_from(ms, stage).0 == h.0);
        assert(h.0[stage as int] == f.0);
    }
}

impl Stage {
    /// The stage itself, handed back as a value of its type: a stage built
    /// around a boxed processor is only known to be a `Stage` once it has
    /// passed through a call.
    fn settled(s: Stage) -> (r: Stage)
        ensures
            r == s,
    {
        s
    }

    /// A stage around a processor this crate knows nothing of.
    pub fn custom(p: Box<dyn LineProcessor>) -> (s: Self)
        ensures
            s == Stage::Custom(p),
            s@ is Custom,
    {
        Stage::Custom(p)
    }

    fn on_line(&mut self, line: &str, out: &mut Vec<String>)
        ensures
            (old(self)@ is Custom) == (final(self)@ is Custom),
            extends(lines_view(old(out)@), lines_view(final(out)@)),
            !(old(self)@ is Custom) ==> final(self)@ == stage_line_spec(old(self)@, line@).0
                && lines_view(final(out)@) == lines_view(old(out)@) + stage_line_spec(
                old(self)@,
                line@,
            ).1,
    {
        match self {
            Stage::Ansi(a) => {
                a.on_line(line, out);
                proof {
                    assert(lines_view(old(out)@).push(clean_spec(a.spec_collapse_cr(), line@))
                        =~= lines_view(old(out)@) + seq![clean_spec(a.spec_collapse_cr(), line@)]);
                }
            },
            Stage::Stack(s) => s.on_line(line, out),
            Stage::Dedupe(d) => d.on_line(line, out),
            Stage::Diff(d) => d.on_line(line, out),
            Stage::Custom(p) => {
                let mut fresh: Vec<String> = Vec::new();
                p.on_line(line, &mut fresh);
                push_lines(out, &fresh);
                proof {
                    lemma_extends_add(lines_view(old(out)@), lines_view(fresh@));
                }
            },
        }
        proof {
            if !(old(self)@ is Custom) {
                lemma_extends_add(lines_view(old(out)@), stage_line_spec(old(self)@, line@).1);
            }
        }
    }

    fn finish(&mut self, out: &mut Vec<String>)
        ensures
            (old(self)@ is Custom) == (final(self)@ is Custom),
            extends(lines_view(old(out)@), lines_view(final(out)@)),
            !(old(self)@ is Custom) ==> final(self)@ == stage_finish_spec(old(self)@).0
                && lines_view(final(out)@) == lines_view(old(out)@) + stage_finish_spec(
                old(self)@,
            ).1,
    {
        match self {
            Stage::Ansi(_) => {
                proof {
                    assert(lines_view(out@) + Seq::<Seq<char>>::empty() =~= lines_view(out@));
                }
            },
            Stage::Stack(s) => s.finish(out),
            Stage::Dedupe(d) => d.finish(out),
            Stage::Diff(d) => d.finish(out),
            Stage::Custom(p) => {
                let mut fresh: Vec<String> = Vec::new();
                p.finish(&mut fresh);
                push_lines(out, &fresh);
                proof {
                    lemma_extends_add(lines_view(old(out)@), lines_view(fresh@));
                }
            },
        }
        proof {
            if !(old(self)@ is Custom) {
                lemma_extends_add(lines_view(old(out)@), stage_finish_spec(old(self)@).1);
            }
        }
    }

    fn summary(&self) -> (r: Vec<String>)
        ensures
            !(self@ is Custom) ==> lines_view(r@) == stage_summary_spec(self@),
    {
        match self {
            Stage::Stack(s) => s.summary(),
            Stage::Custom(p) => p.summary(),
            _ => {
                let r: Vec<String> = Vec::new();
                proof {
                    assert(lines_view(r@) =~= Seq::<Seq<char>>::empty());
                }
                r
            },
        }
    }
}

// ---------------------------------------------------------------------------
// The chain
// ---------------------------------------------------------------------------

/// `b` is `a` with lines added at the end.
pub open spec fn extends(a: Seq<Seq<char>>, b: Seq<Seq<char>>) -> bool {
    a.len() <= b.len() && b.subrange(0, a.len() as int) == a
}

/// The lines added to `a` to make `b`.
pub open spec fn since(a: Seq<Seq<char>>, b: Seq<Seq<char>>) -> Seq<Seq<char>> {
    b.skip(a.len() as int)
}

pub proof fn lemma_extends_add(a: Seq<Seq<char>>, d: Seq<Seq<char>>)
    ensures
        extends(a, a + d),
        since(a, a + d) == d,
{
    assert((a + d).subrange(0, a.len() as int) =~= a);
    assert((a + d).skip(a.len() as int) =~= d);
}

pub proof fn lemma_extends_since(a: Seq<Seq<char>>, b: Seq<Seq<char>>)
    requires
        extends(a, b),
    ensures
        b == a + since(a, b),
{
    assert(b =~= b.subrange(0, a.len() as int) + b.skip(a.len() as int));
}

pub proof fn lemma_extends_trans(a: Seq<Seq<char>>, b: Seq<Seq<char>>, c: Seq<Seq<char>>)
    requires
        extends(a, b),
        extends(b, c),
    ensures
        extends(a, c),
        since(a, c) == since(a, b) + since(b, c),
{
    lemma_extends_since(a, b);
    lemma_extends_since(b, c);
    lemma_extends_add(a, since(a, b) + since(b, c));
    assert(c =~= a + (since(a, b) + since(b, c)));
}

/// One pass through the stages from `from` on, as the chain's records show
/// it: stage `from` is handed `x`; every later stage is handed exactly what
/// the stage before it wrote, in order; every stage's writing only grows;
/// and what leaves the last stage (or `x` itself, when no stage is left) is
/// what was added to the output. The stages before `from` are untouched.
pub open spec fn fed_forward(
    c0: Chain,
    c1: Chain,
    from: int,
    x: Seq<Seq<char>>,
    out0: Seq<Seq<char>>,
    out1: Seq<Seq<char>>,
) -> bool {
    let n = c0@.len() as int;
    &&& c1@.len() == n
    &&& forall|i: int|
        0 <= i < from ==> #[trigger] c1.handed_to(i) == c0.handed_to(i) && c1.got_from(i)
            == c0.got_from(i)
    &&& forall|i: int| from <= i < n ==> extends(c0.got_from(i), #[trigger] c1.got_from(i))
    &&& forall|i: int|
        from <= i < n ==> #[trigger] c1.handed_to(i) == c0.handed_to(i) + (if i == from {
            x
        } else {
            since(c0.got_from(i - 1), c1.got_from(i - 1))
        })
    &&& out1 == out0 + (if from >= n {
        x
    } else {
        since(c0.got_from(n - 1), c1.got_from(n - 1))
    })
}

/// Runs processors back to back, feeding each one's output into the next.
/// It keeps a record of what it handed each stage and what each stage wrote.
pub struct Chain {
    stages: Vec<Stage>,
    handed: Ghost<spec_fn(int) -> Seq<Seq<char>>>,
    got: Ghost<spec_fn(int) -> Seq<Seq<char>>>,
}

impl View for Chain {
    type V = Seq<StageModel>;

    closed spec fn view(&self) -> Seq<StageModel> {
        self.stages@.map_values(|s: Stage| s@)
    }
}

proof fn lemma_fed_forward_refl(c: Chain, from: int, o: Seq<Seq<char>>)
    requires
        0 <= from,
    ensures
        fed_forward(c, c, from, Seq::<Seq<char>>::empty(), o, o),
{
    let e = Seq::<Seq<char>>::empty();
    let n = c@.len() as int;
    assert forall|i: int| from <= i < n implies extends(c.got_from(i), #[trigger] c.got_from(i)) by {
        lemma_extends_add(c.got_from(i), e);
        assert(c.got_from(i) + e =~= c.got_from(i));
    }
    assert forall|i: int| from <= i < n implies #[trigger] c.handed_to(i) == c.handed_to(i) + (if i
        == from {
        e
    } else {
        since(c.got_from(i - 1), c.got_from(i - 1))
    }) by {
        assert(c.got_from(i - 1).skip(c.got_from(i - 1).len() as int) =~= e);
        assert(c.handed_to(i) + e =~= c.handed_to(i));
    }
    assert(o + e =~= o);
    if from < n {
        assert(c.got_from(n - 1).skip(c.got_from(n - 1).len() as int) =~= e);
    }
}

/// One round of the final flush keeps the whole flush fed forward: stage `s`
/// wrote `t` at its flush, and `t` went through the stages after it.
#[verifier::rlimit(40)]
proof fn lemma_finish_step(
    c0: Chain,
    c1: Chain,
    c2: Chain,
    c3: Chain,
    s: int,
    t: Seq<Seq<char>>,
    o0: Seq<Seq<char>>,
    o1: Seq<Seq<char>>,
    o2: Seq<Seq<char>>,
)
    requires
        0 <= s < c0@.len(),
        fed_forward(c0, c1, 0, Seq::<Seq<char>>::empty(), o0, o1),
        c2@.len() == c1@.len(),
        forall|j: int| #[trigger] c2.handed_to(j) == c1.handed_to(j),
        forall|j: int| j != s ==> #[trigger] c2.got_from(j) == c1.got_from(j),
        c2.got_from(s) == c1.got_from(s) + t,
        fed_forward(c2, c3, s + 1, t, o1, o2),
    ensures
        fed_forward(c0, c3, 0, Seq::<Seq<char>>::empty(), o0, o2),
{
    let e = Seq::<Seq<char>>::empty();
    let n = c0@.len() as int;
    assert forall|i: int| 0 <= i < n implies extends(c0.got_from(i), #[trigger] c3.got_from(i)) by {
        assert(extends(c0.got_from(i), c1.got_from(i)));
        if i < s + 1 {
            assert(c3.handed_to(i) == c2.handed_to(i));
            if i == s {
                lemma_extends_add(c1.got_from(i), t);
                lemma_extends_trans(c0.got_from(i), c1.got_from(i), c3.got_from(i));
            }
        } else {
            assert(extends(c2.got_from(i), c3.got_from(i)));
            lemma_extends_trans(c0.got_from(i), c1.got_from(i), c3.got_from(i));
        }
    }
    assert forall|i: int| 0 <= i < n implies #[trigger] c3.handed_to(i) == c0.handed_to(i) + (if i
        == 0 {
        e
    } else {
        since(c0.got_from(i - 1), c3.got_from(i - 1))
    }) by {
        assert(c1.handed_to(i) == c0.handed_to(i) + (if i == 0 {
            e
        } else {
            since(c0.got_from(i - 1), c1.got_from(i - 1))
        }));
        if i < s + 1 {
            assert(c3.handed_to(i) == c2.handed_to(i));
            if i > 0 {
                assert(c3.handed_to(i - 1) == c2.handed_to(i - 1));
            }
        } else {
            assert(c3.handed_to(i) == c2.handed_to(i) + (if i == s + 1 {
                t
            } else {
                since(c2.got_from(i - 1), c3.got_from(i - 1))
            }));
            assert(extends(c0.got_from(i - 1), c1.got_from(i - 1)));
            if i == s + 1 {
                assert(c3.handed_to(s) == c2.handed_to(s));
                lemma_extends_add(c1.got_from(s), t);
                lemma_extends_trans(c0.got_from(s), c1.got_from(s), c3.got_from(s));
            } else {
                assert(extends(c2.got_from(i - 1), c3.got_from(i - 1)));
                lemma_extends_trans(c0.got_from(i - 1), c1.got_from(i - 1), c3.got_from(i - 1));
            }
            assert(c0.handed_to(i) + since(c0.got_from(i - 1), c1.got_from(i - 1)) + since(
                c1.got_from(i - 1),
                c3.got_from(i - 1),
            ) =~= c0.handed_to(i) + since(c0.got_from(i - 1), c3.got_from(i - 1)));
        }
    }
    assert(o1 == o0 + since(c0.got_from(n - 1), c1.got_from(n - 1)));
    if s + 1 >= n {
        assert(c3.handed_to(s) == c2.handed_to(s));
        lemma_extends_add(c1.got_from(s), t);
        lemma_extends_trans(c0.got_from(s), c1.got_from(s), c3.got_from(s));
        assert(o2 =~= o0 + since(c0.got_from(n - 1), c3.got_from(n - 1)));
    } else {
        assert(extends(c2.got_from(n - 1), c3.got_from(n - 1)));
        lemma_extends_trans(c0.got_from(n - 1), c1.got_from(n - 1), c3.got_from(n - 1));
        assert(o2 =~= o0 + since(c0.got_from(n - 1), c3.got_from(n - 1)));
    }
}

impl Chain {
    /// Stage `i`, processor and all.
    pub closed spec fn stage_at(self, i: int) -> Stage {
        self.stages@[i]
    }

    /// The lines the chain has handed stage `i`, in order.
    pub closed spec fn handed_to(self, i: int) -> Seq<Seq<char>> {
        (self.handed@)(i)
    }

    /// The lines stage `i` has written, in order.
    pub closed spec fn got_from(self, i: int) -> Seq<Seq<char>> {
        (self.got@)(i)
    }

    /// A chain of arbitrary processors, run in the order given.
    pub fn new(procs: Vec<Box<dyn LineProcessor>>) -> (c: Self)
        ensures
            c@.len() == procs@.len(),
            forall|i: int| 0 <= i < c@.len() ==> #[trigger] c@[i] is Custom,
            forall|i: int|
                0 <= i < procs@.len() ==> #[trigger] c.stage_at(i) == Stage::Custom(procs@[i]),
            forall|i: int| #[trigger] c.handed_to(i) == Seq::<Seq<char>>::empty(),
            forall|i: int| #[trigger] c.got_from(i) == Seq::<Seq<char>>::empty(),
    {
        let ghost p0 = procs@;
        let mut procs = procs;
        let ghost n = procs@.len();
        // Popping from the back twice keeps the order given.
        let mut reversed: Vec<Stage> = Vec::new();
        let mut k: usize = procs.len();
        while k > 0
            invariant
                k == procs@.len(),
                k <= n == p0.len(),
                procs@ == p0.take(k as int),
                reversed@.len() + k == n,
                forall|i: int|
                    0 <= i < reversed@.len() ==> #[trigger] reversed@[i] == Stage::Custom(
                        p0[n - 1 - i],
                    ),
            decreases k,
        {
            k = k - 1;
            let ghost before = reversed@;
            proof {
                assert(procs@.last() == p0[k as int]);
            }
            if let Some(p) = procs.pop() {
                proof {
                    assert(p == p0[k as int]);
                }
                let st = Stage::settled(Stage::Custom(p));
                proof {
                    assert(st == Stage::Custom(p0[k as int]));
                }
                let ghost sv = st;
                reversed.push(st);
                proof {
                    assert(reversed@ == before.push(sv));
                    assert(reversed@.len() == before.len() + 1);
                    assert(reversed@[before.len() as int] == sv);
                    assert forall|i: int| 0 <= i < reversed@.len() implies #[trigger] reversed@[i]
                        == Stage::Custom(p0[n - 1 - i]) by {
                        if i < before.len() {
                            assert(before.push(sv)[i] == before[i]);
                        } else {
                            assert(before.push(sv)[i] == sv);
                        }
                    }
                }
            }
            proof {
                assert(procs@ =~= p0.take(k as int));
            }
        }
        let ghost r0 = reversed@;
        let mut stages: Vec<Stage> = Vec::new();
        let mut m: usize = reversed.len();
        while m > 0
            invariant
                m == reversed@.len(),
                r0.len() == n,
                m <= n,
                reversed@ == r0.take(m as int),
                stages@.len() + m == n,
                forall|i: int| 0 <= i < n ==> #[trigger] r0[i] == Stage::Custom(p0[n - 1 - i]),
                forall|i: int|
                    0 <= i < stages@.len() ==> #[trigger] stages@[i] == Stage::Custom(p0[i]),
            decreases m,
        {
            m = m - 1;
            if let Some(s) = reversed.pop() {
                proof {
                    assert(s == r0[m as int]);
                    assert(r0[m as int] == Stage::Custom(p0[n - 1 - m]));
                }
                stages.push(s);
            }
            proof {
                assert(reversed@ =~= r0.take(m as int));
            }
        }
        let c = Chain {
            stages,
            handed: Ghost(|i: int| Seq::<Seq<char>>::empty()),
            got: Ghost(|i: int| Seq::<Seq<char>>::empty()),
        };
        proof {
            assert forall|i: int| 0 <= i < c@.len() implies #[trigger] c@[i] is Custom by {
                assert(c@[i] == c.stages@[i]@);
                assert(c.stages@[i] == Stage::Custom(p0[i]));
            }
        }
        c
    }

    /// A chain of the given stages, run in the order given.
    pub fn of_stages(stages: Vec<Stage>) -> (c: Self)
        ensures
            c@ == stages@.map_values(|s: Stage| s@),
            forall|i: int| 0 <= i < stages@.len() ==> #[trigger] c.stage_at(i) == stages@[i],
            forall|i: int| #[trigger] c.handed_to(i) == Seq::<Seq<char>>::empty(),
            forall|i: int| #[trigger] c.got_from(i) == Seq::<Seq<char>>::empty(),
    {
        Chain {
            stages,
            handed: Ghost(|i: int| Seq::<Seq<char>>::empty()),
            got: Ghost(|i: int| Seq::<Seq<char>>::empty()),
        }
    }

    pub fn is_empty(&self) -> (b: bool)
        ensures
            b == (self@.len() == 0),
    {
        self.stages.len() == 0
    }

    /// Feed one input line through every stage.
    pub fn on_line(&mut self, line: &str, out: &mut Vec<String>)
        ensures
            final(self)@.len() == old(self)@.len(),
            all_known(old(self)@) ==> all_known(final(self)@),
            all_known(old(self)@) ==> final(self)@ == feed_spec(old(self)@, 0, seq![line@]).0
                && lines_view(final(out)@) == lines_view(old(out)@) + feed_spec(
                old(self)@,
                0,
                seq![line@],
            ).1,
            fed_forward(
                *old(self),
                *final(self),
                0,
                seq![line@],
                lines_view(old(out)@),
                lines_view(final(out)@),
            ),
    {
        let mut first: Vec<String> = Vec::new();
        first.push(line.to_owned());
        proof {
            assert(lines_view(first@) =~= seq![line@]);
        }
        self.feed(0, &first, out);
    }

    /// Flush every stage in turn; each one's tail flows through the stages
    /// after it.
    #[verifier::rlimit(40)]
    pub fn finish(&mut self, out: &mut Vec<String>)
        ensures
            final(self)@.len() == old(self)@.len(),
            all_known(old(self)@) ==> all_known(final(self)@),
            all_known(old(self)@) ==> final(self)@ == finish_from(old(self)@, 0).0 && lines_view(
                final(out)@,
            ) == lines_view(old(out)@) + finish_from(old(self)@, 0).1,
            fed_forward(
                *old(self),
                *final(self),
                0,
                Seq::<Seq<char>>::empty(),
                lines_view(old(out)@),
                lines_view(final(out)@),
            ),
    {
        let ghost ms0 = self@;
        let ghost out0 = lines_view(out@);
        let ghost c0 = *self;
        let mut stage: usize = 0;
        let n = self.stages.len();
        proof {
            lemma_finish_len(ms0, 0);
            lemma_fed_forward_refl(c0, 0, out0);
        }
        while stage < n
            invariant
                n == self@.len() == ms0.len() == c0@.len(),
                stage <= n,
                fed_forward(c0, *self, 0, Seq::<Seq<char>>::empty(), out0, lines_view(out@)),
                all_known(ms0) ==> all_known(self@),
                all_known(ms0) ==> finish_from(ms0, 0).0 == finish_from(self@, stage as nat).0
                    && out0 + finish_from(ms0, 0).1 == lines_view(out@) + finish_from(
                    self@,
                    stage as nat,
                ).1,
            decreases n - stage,
        {
            let ghost ms = self@;
            let ghost before = lines_view(out@);
            let ghost c1 = *self;
            let mut tail: Vec<String> = Vec::new();
            self.finish_stage(stage, &mut tail);
            let ghost ms1 = self@;
            let ghost c2 = *self;
            proof {
                assert(since(Seq::<Seq<char>>::empty(), lines_view(tail@)) =~= lines_view(tail@));
            }
            if tail.len() > 0 {
                self.feed(stage + 1, &tail, out);
            } else {
                proof {
                    lemma_fed_forward_refl(c2, stage + 1, before);
                    assert(lines_view(tail@) =~= Seq::<Seq<char>>::empty());
                }
            }
            proof {
                lemma_finish_step(
                    c0,
                    c1,
                    c2,
                    *self,
                    stage as int,
                    lines_view(tail@),
                    out0,
                    before,
                    lines_view(out@),
                );
            }
            proof {
                if all_known(ms0) {
                    let f = stage_finish_spec(ms[stage as int]);
                    assert(ms1 == ms.update(stage as int, f.0));
                    assert(lines_view(tail@) == f.1);
                    lemma_feed_len(ms1, (stage + 1) as nat, f.1);
                    let g = if f.1.len() == 0 {
                        (ms1, Seq::<Seq<char>>::empty())
                    } else {
                        feed_spec(ms1, (stage + 1) as nat, f.1)
                    };
                    assert(self@ == g.0);
                    assert(lines_view(out@) == before + g.1) by {
                        if f.1.len() == 0 {
                            assert(before + g.1 =~= before);
                        }
                    }
                    let h = finish_from(g.0, (stage + 1) as nat);
                    assert(finish_from(ms, stage as nat) == (h.0, g.1 + h.1));
                    assert(before + (g.1 + h.1) =~= (before + g.1) + h.1);
                }
            }
            stage = stage + 1;
        }
        proof {
            if all_known(ms0) {
                assert(lines_view(out@) + Seq::<Seq<char>>::empty() =~= lines_view(out@));
            }
        }
    }

    /// The summary lines of every stage, in order.
    pub fn summary(&self) -> (r: Vec<String>)
        ensures
            all_known(self@) ==> lines_view(r@) == summary_spec(self@),
    {
        let mut r: Vec<String> = Vec::new();
        let mut i: usize = 0;
        proof {
            assert(self@.take(0) =~= Seq::<StageModel>::empty());
            assert(lines_view(r@) =~= Seq::<Seq<char>>::empty());
        }
        while i < self.stages.len()
            invariant
                i <= self@.len(),
                self@.len() == self.stages@.len(),
                all_known(self@) ==> lines_view(r@) == summary_spec(self@.take(i as int)),
            decreases self@.len() - i,
        {
            let s = self.stages[i].summary();
            push_lines(&mut r, &s);
            proof {
                assert(self@[i as int] == self.stages@[i as int]@);
                assert(self@.take(i + 1).drop_last() =~= self@.take(i as int));
                assert(self@.take(i + 1).last() == self@[i as int]);
            }
            i = i + 1;
        }
        proof {
            assert(self@.take(self@.len() as int) =~= self@);
        }
        r
    }

    fn finish_stage(&mut self, stage: usize, out: &mut Vec<String>)
        requires
            stage < old(self)@.len(),
        ensures
            final(self)@.len() == old(self)@.len(),
            all_known(old(self)@) ==> all_known(final(self)@),
            all_known(old(self)@) ==> final(self)@ == old(self)@.update(
                stage as int,
                stage_finish_spec(old(self)@[stage as int]).0,
            ) && lines_view(final(out)@) == lines_view(old(out)@) + stage_finish_spec(
                old(self)@[stage as int],
            ).1,
            extends(lines_view(old(out)@), lines_view(final(out)@)),
            forall|j: int| #[trigger] final(self).handed_to(j) == old(self).handed_to(j),
            forall|j: int|
                j != stage ==> #[trigger] final(self).got_from(j) == old(self).got_from(j),
            final(self).got_from(stage as int) == old(self).got_from(stage as int) + since(
                lines_view(old(out)@),
                lines_view(final(out)@),
            ),
    {
        let ghost ms = self@;
        let ghost before = lines_view(out@);
        self.stages[stage].finish(out);
        let ghost g = self.got@;
        self.got = Ghost(
            |j: int|
                if j == stage as int {
                    g(j) + since(before, lines_view(out@))
                } else {
                    g(j)
                },
        );
        proof {
            assert(self@ =~= ms.update(stage as int, self.stages@[stage as int]@));
            assert forall|j: int| 0 <= j < self@.len() && all_known(ms) implies !(
            #[trigger] self@[j] is Custom) by {
                assert(ms[j] == old(self)@[j]);
            }
        }
    }

    fn run_stage_lines(&mut self, stage: usize, lines: &Vec<String>, out: &mut Vec<String>)
        requires
            stage < old(self)@.len(),
        ensures
            final(self)@.len() == old(self)@.len(),
            all_known(old(self)@) ==> all_known(final(self)@),
            all_known(old(self)@) ==> final(self)@ == old(self)@.update(
                stage as int,
                run_stage(old(self)@[stage as int], lines_view(lines@)).0,
            ) && lines_view(final(out)@) == lines_view(old(out)@) + run_stage(
                old(self)@[stage as int],
                lines_view(lines@),
            ).1,
            extends(lines_view(old(out)@), lines_view(final(out)@)),
            forall|j: int|
                j != stage ==> #[trigger] final(self).handed_to(j) == old(self).handed_to(j),
            forall|j: int|
                j != stage ==> #[trigger] final(self).got_from(j) == old(self).got_from(j),
            final(self).handed_to(stage as int) == old(self).handed_to(stage as int) + lines_view(
                lines@,
            ),
            final(self).got_from(stage as int) == old(self).got_from(stage as int) + since(
                lines_view(old(out)@),
                lines_view(final(out)@),
            ),
    {
        let ghost ms = self@;
        let ghost out0 = lines_view(out@);
        let ghost ls = lines_view(lines@);
        let ghost h0 = self.handed@;
        let ghost g0 = self.got@;
        let mut i: usize = 0;
        proof {
            assert(ls.take(0) =~= Seq::<Seq<char>>::empty());
            assert(out0 + Seq::<Seq<char>>::empty() =~= out0);
            assert(ms.update(stage as int, ms[stage as int]) =~= ms);
            lemma_extends_add(out0, Seq::<Seq<char>>::empty());
            assert(h0(stage as int) + Seq::<Seq<char>>::empty() =~= h0(stage as int));
            assert(g0(stage as int) + Seq::<Seq<char>>::empty() =~= g0(stage as int));
        }
        while i < lines.len()
            invariant
                stage < ms.len(),
                self@.len() == ms.len(),
                i <= lines@.len(),
                ls == lines_view(lines@),
                forall|j: int| 0 <= j < ms.len() && j != stage ==> #[trigger] self@[j] == ms[j],
                (ms[stage as int] is Custom) == (self@[stage as int] is Custom),
                all_known(ms) ==> self@[stage as int] == run_stage(
                    ms[stage as int],
                    ls.take(i as int),
                ).0 && lines_view(out@) == out0 + run_stage(ms[stage as int], ls.take(i as int)).1,
                extends(out0, lines_view(out@)),
                forall|j: int| j != stage ==> #[trigger] (self.handed@)(j) == h0(j),
                forall|j: int| j != stage ==> #[trigger] (self.got@)(j) == g0(j),
                (self.handed@)(stage as int) == h0(stage as int) + ls.take(i as int),
                (self.got@)(stage as int) == g0(stage as int) + since(out0, lines_view(out@)),
            decreases lines@.len() - i,
        {
            let ghost cur = self@;
            let ghost before = lines_view(out@);
            self.stages[stage].on_line(lines[i].as_str(), out);
            let ghost h = self.handed@;
            let ghost g = self.got@;
            let ghost l = lines@[i as int]@;
            self.handed = Ghost(
                |j: int|
                    if j == stage as int {
                        h(j).push(l)
                    } else {
                        h(j)
                    },
            );
            self.got = Ghost(
                |j: int|
                    if j == stage as int {
                        g(j) + since(before, lines_view(out@))
                    } else {
                        g(j)
                    },
            );
            proof {
                assert(self@ =~= cur.update(stage as int, self.stages@[stage as int]@));
                assert(ls.take(i + 1).drop_last() =~= ls.take(i as int));
                assert(ls.take(i + 1).last() == ls[i as int]);
                assert(ls[i as int] == lines@[i as int]@);
                assert(ls.take(i + 1) =~= ls.take(i as int).push(l));
                assert(h0(stage as int) + ls.take(i + 1) =~= (h0(stage as int) + ls.take(
                    i as int,
                )).push(l));
                lemma_extends_trans(out0, before, lines_view(out@));
                assert(g0(stage as int) + since(out0, lines_view(out@)) =~= g0(stage as int)
                    + since(out0, before) + since(before, lines_view(out@)));
                if all_known(ms) {
                    let a = run_stage(ms[stage as int], ls.take(i as int));
                    let b = stage_line_spec(a.0, ls[i as int]);
                    assert(lines_view(out@) == before + b.1);
                    assert(out0 + (a.1 + b.1) =~= (out0 + a.1) + b.1);
                }
            }
            i = i + 1;
        }
        proof {
            assert(ls.take(lines@.len() as int) =~= ls);
            if all_known(ms) {
                assert(self@ =~= ms.update(
                    stage as int,
                    run_stage(ms[stage as int], ls).0,
                ));
                assert forall|j: int| 0 <= j < self@.len() implies !(#[trigger] self@[j] is Custom) by {
                    if j == stage {
                        lemma_run_stage_known(ms[stage as int], ls);
                    }
                }
            }
        }
    }

    fn feed(&mut self, stage: usize, lines: &Vec<String>, out: &mut Vec<String>)
        requires
            stage <= old(self)@.len(),
        ensures
            final(self)@.len() == old(self)@.len(),
            all_known(old(self)@) ==> all_known(final(self)@),
            all_known(old(self)@) ==> final(self)@ == feed_spec(
                old(self)@,
                stage as nat,
                lines_view(lines@),
            ).0 && lines_view(final(out)@) == lines_view(old(out)@) + feed_spec(
                old(self)@,
                stage as nat,
                lines_view(lines@),
            ).1,
            fed_forward(
                *old(self),
                *final(self),
                stage as int,
                lines_view(lines@),
                lines_view(old(out)@),
                lines_view(final(out)@),
            ),
        decreases old(self)@.len() - stage,
    {
        if stage >= self.stages.len() {
            push_lines(out, lines);
            return;
        }
        let ghost c0 = *self;
        let mut sink: Vec<String> = Vec::new();
        proof {
            assert(lines_view(sink@) =~= Seq::<Seq<char>>::empty());
        }
        self.run_stage_lines(stage, lines, &mut sink);
        let ghost c1 = *self;
        let ghost d = lines_view(sink@);
        proof {
            assert(lines_view(sink@) =~= Seq::<Seq<char>>::empty() + lines_view(sink@));
            assert(since(Seq::<Seq<char>>::empty(), d) =~= d);
        }
        if sink.len() > 0 {
            self.feed(stage + 1, &sink, out);
        } else {
            proof {
                assert(lines_view(out@) + Seq::<Seq<char>>::empty() =~= lines_view(out@));
            }
        }
        proof {
            let c2 = *self;
            let n = c0@.len() as int;
            if sink.len() == 0 {
                assert(d =~= Seq::<Seq<char>>::empty());
            }
            assert forall|i: int| stage < i < n implies extends(
                c0.got_from(i),
                #[trigger] c2.got_from(i),
            ) by {
                if sink.len() == 0 {
                    lemma_extends_add(c0.got_from(i), Seq::<Seq<char>>::empty());
                    assert(c0.got_from(i) + Seq::<Seq<char>>::empty() =~= c0.got_from(i));
                }
            }
            assert(c1.got_from(stage as int) == c0.got_from(stage as int) + d);
            if sink.len() > 0 {
                assert(c2.handed_to(stage as int) == c1.handed_to(stage as int));
            }
            assert(c2.got_from(stage as int) == c0.got_from(stage as int) + d);
            assert forall|i: int| 0 <= i < stage implies #[trigger] c2.handed_to(i)
                == c0.handed_to(i) && c2.got_from(i) == c0.got_from(i) by {
                if sink.len() > 0 {
                    assert(c2.handed_to(i) == c1.handed_to(i));
                }
            }
            assert forall|i: int| stage < i < n implies #[trigger] c2.got_from(i) == c1.got_from(i)
                || sink.len() > 0 by {}
            assert forall|i: int| stage < i < n implies #[trigger] c1.got_from(i) == c0.got_from(i)
                && c1.handed_to(i) == c0.handed_to(i) by {}
            lemma_extends_add(c0.got_from(stage as int), d);
            assert forall|i: int| stage <= i < n implies #[trigger] c2.handed_to(i)
                == c0.handed_to(i) + (if i == stage {
                lines_view(lines@)
            } else {
                since(c0.got_from(i - 1), c2.got_from(i - 1))
            }) by {
                if i > stage {
                    if sink.len() == 0 {
                        assert(c0.got_from(i - 1).skip(c0.got_from(i - 1).len() as int)
                            =~= Seq::<Seq<char>>::empty());
                        assert(c0.handed_to(i) + Seq::<Seq<char>>::empty() =~= c0.handed_to(i));
                    }
                }
            }
            if sink.len() == 0 {
                if n - 1 != stage {
                    assert(c0.got_from(n - 1).skip(c0.got_from(n - 1).len() as int)
                        =~= Seq::<Seq<char>>::empty());
                }
            }
        }
    }
}

} // verus!
