//! The streaming driver: detect, process, render.
//!
//! A [`Session`] takes input lines one at a time and hands back the output
//! lines that are ready; [`run`] and [`run_str`] drive one over a whole
//! input held in memory.

use vstd::prelude::*;
use vstd::string::StringSliceAdditionalSpecFns;
use vstd::utf8::{decode_utf8, encode_utf8, valid_utf8};

use crate::detector::{detect, detect_spec, FormatType};
use crate::formatters::{
    begin_spec, end_spec, line_spec, render_begin, render_end, render_line, RenderContext,
};
use crate::processors::ansi::{clean_spec, AnsiStripper};
use crate::processors::dedupe::{DedupeModel, Deduper};
use crate::processors::diff::{DiffMinimizer, DiffModel};
use crate::processors::stacktrace::{Mode, StackFolder, StackModel};
use crate::processors::{
    accepts_at, admits_markers, all_inv, all_known, all_q, ansi_first_only, content_of,
    entry_inputs, feed_spec, finish_from, lemma_all_q_add, lemma_content_add, lemma_feed_in_order,
    lemma_feed_keeps, lemma_finish_empties, lemma_finish_in_order, lemma_finish_keeps, marker_line, pending_from,
    stage_inputs, stage_pending, stages_ok, summary_spec, Chain, ProcessedOutput, Stage, StageModel,
};
use crate::text::{
    is_subseq, lemma_subseq_concat, lemma_subseq_prefix, lemma_subseq_refl, lemma_subseq_trans,
    lines_view, string_of,
};
use crate::token::heuristic::{units_spec, NEWLINE_UNITS, SCALE};
use crate::token::Counter;
use crate::utils::stats::ReductionStats;
use crate::{preset_format, Config, OutputFormat};

verus! {

/// Lines buffered before detection runs. Bounds the replay buffer, and with
/// it the pipeline's memory use on unbounded streams.
pub const HEAD_LINES: usize = 200;

/// What a completed run reports back to the caller.
#[derive(Debug, Clone, Default)]
pub struct Outcome {
    pub detected_type: FormatType,
    pub error_summary: Vec<String>,
    pub stats: ReductionStats,
}

// ---------------------------------------------------------------------------
// The chain for a format
// ---------------------------------------------------------------------------

pub open spec fn fresh_stack(keep_frames: usize) -> StageModel {
    StageModel::Stack(
        StackModel {
            mode: Mode::Idle,
            header: Seq::empty(),
            frames: Seq::empty(),
            keep_frames: keep_frames as nat,
            pin_first: false,
            summary: Seq::empty(),
            prev: Seq::empty(),
        },
    )
}

pub open spec fn fresh_dedupe(window: usize, fuzzy: bool) -> StageModel {
    StageModel::Dedupe(
        DedupeModel {
            run: None,
            window: Seq::empty(),
            capacity: if window == 0 {
                1
            } else {
                window as nat
            },
            fuzzy,
            seq: 0,
            last_blank: false,
        },
    )
}

pub open spec fn fresh_diff(context: usize) -> StageModel {
    StageModel::Diff(DiffModel { context: context as nat, file: None, hunk: None, body: Seq::empty() })
}

/// The stages run for a detected format: the ANSI stripper unless escape
/// codes are kept; then the deduplicator alone when asked for; else the diff
/// minimizer for diffs, the deduplicator for container and JSON logs, and
/// the stack folder followed by the deduplicator for everything else.
pub open spec fn chain_spec(format: FormatType, config: Config) -> Seq<StageModel> {
    let ansi = if config.preserve_ansi {
        Seq::empty()
    } else {
        seq![StageModel::Ansi(true)]
    };
    let dedupe = fresh_dedupe(config.dedupe_window, config.fuzzy_dedupe);
    if config.dedupe_only {
        ansi.push(dedupe)
    } else {
        match format {
            FormatType::GitDiff => ansi.push(fresh_diff(config.context_lines)),
            FormatType::DockerLog | FormatType::JsonLines => ansi.push(dedupe),
            _ => ansi.push(fresh_stack(config.keep_frames)).push(dedupe),
        }
    }
}

/// Diffs are never deduplicated: the chain for a git diff (unless only the
/// deduplicator was asked for) is the ANSI stripper, unless escape codes are
/// kept, and then the diff minimizer alone. Repeated source lines in a patch
/// stay as they are.
pub proof fn lemma_diff_chain_has_no_deduplicator(config: Config)
    requires
        !config.dedupe_only,
    ensures
        ({
            let ms = chain_spec(FormatType::GitDiff, config);
            &&& ms.len() == if config.preserve_ansi {
                1int
            } else {
                2int
            }
            &&& ms.last() is Diff
            &&& forall|i: int| 0 <= i < ms.len() ==> !(#[trigger] ms[i] is Dedupe)
            &&& forall|i: int| 0 <= i < ms.len() - 1 ==> #[trigger] ms[i] is Ansi
        }),
{
    let ms = chain_spec(FormatType::GitDiff, config);
    if config.preserve_ansi {
        assert(ms =~= seq![fresh_diff(config.context_lines)]);
    } else {
        assert(ms =~= seq![StageModel::Ansi(true), fresh_diff(config.context_lines)]);
    }
}

/// Assemble the processor chain for a detected format.
pub fn build_chain(format: FormatType, config: &Config) -> (c: Chain)
    ensures
        c@ == chain_spec(format, *config),
{
    let mut stages: Vec<Stage> = Vec::new();
    if !config.preserve_ansi {
        stages.push(Stage::Ansi(AnsiStripper::new()));
    }
    let ghost first = stages@;
    if config.dedupe_only {
        stages.push(Stage::Dedupe(Deduper::new(config.dedupe_window, config.fuzzy_dedupe)));
    } else {
        match format {
            FormatType::GitDiff => {
                stages.push(Stage::Diff(DiffMinimizer::new(config.context_lines)));
            },
            FormatType::DockerLog | FormatType::JsonLines => {
                stages.push(
                    Stage::Dedupe(Deduper::new(config.dedupe_window, config.fuzzy_dedupe)),
                );
            },
            _ => {
                stages.push(Stage::Stack(StackFolder::new(config.keep_frames)));
                stages.push(
                    Stage::Dedupe(Deduper::new(config.dedupe_window, config.fuzzy_dedupe)),
                );
            },
        }
    }
    let c = Chain::of_stages(stages);
    proof {
        assert(c@ =~= chain_spec(format, *config));
    }
    c
}

// ---------------------------------------------------------------------------
// What a run computes
// ---------------------------------------------------------------------------

/// The lines that leave the chain when `lines` are fed in order, before the
/// end-of-input flush.
pub open spec fn chain_lines(ms: Seq<StageModel>, lines: Seq<Seq<char>>) -> (
    Seq<StageModel>,
    Seq<Seq<char>>,
)
    decreases lines.len(),
{
    if lines.len() == 0 {
        (ms, Seq::empty())
    } else {
        let a = chain_lines(ms, lines.drop_last());
        let b = feed_spec(a.0, 0, seq![lines.last()]);
        (b.0, a.1 + b.1)
    }
}

/// The lines the detector looks at.
pub open spec fn head_of(lines: Seq<Seq<char>>) -> Seq<Seq<char>> {
    if lines.len() <= HEAD_LINES {
        lines
    } else {
        lines.take(HEAD_LINES as int)
    }
}

/// The format a run settles on: the preset's, else what the detector sees in
/// the head of the input, with colour codes stripped unless they are kept
/// (they hide the very line starts the signatures look for).
pub open spec fn detected_format(config: Config, lines: Seq<Seq<char>>) -> FormatType {
    match preset_format(config.preset) {
        Some(f) => f,
        None => detect_spec(
            if config.preserve_ansi {
                head_of(lines)
            } else {
                head_of(lines).map_values(|l: Seq<char>| clean_spec(true, l))
            },
        ),
    }
}

/// A preset skips detection entirely: the format is the preset's, whatever
/// the input holds.
pub proof fn lemma_preset_overrides_detection(config: Config, lines: Seq<Seq<char>>)
    requires
        preset_format(config.preset) is Some,
    ensures
        detected_format(config, lines) == preset_format(config.preset)->0,
{
}

/// The lines a run can keep: the input lines, cleaned of colour codes unless
/// those are kept.
pub open spec fn kept_lines(config: Config, lines: Seq<Seq<char>>) -> Seq<Seq<char>> {
    if config.preserve_ansi {
        lines
    } else {
        lines.map_values(|l: Seq<char>| clean_spec(true, l))
    }
}

proof fn lemma_chain_lines_keep(ms: Seq<StageModel>, lines: Seq<Seq<char>>, q: spec_fn(Seq<char>) -> bool)
    requires
        admits_markers(q),
        all_known(ms),
        stages_ok(ms, q),
        ansi_first_only(ms),
        forall|k: int| 0 <= k < lines.len() ==> accepts_at(ms, 0, #[trigger] lines[k], q),
    ensures
        all_known(chain_lines(ms, lines).0),
        stages_ok(chain_lines(ms, lines).0, q),
        ansi_first_only(chain_lines(ms, lines).0),
        all_q(chain_lines(ms, lines).1, q),
        forall|l: Seq<char>|
            accepts_at(ms, 0, l, q) ==> #[trigger] accepts_at(chain_lines(ms, lines).0, 0, l, q),
    decreases lines.len(),
{
    if lines.len() > 0 {
        let p = lines.drop_last();
        assert forall|k: int| 0 <= k < p.len() implies accepts_at(ms, 0, #[trigger] p[k], q) by {
            assert(p[k] == lines[k]);
        }
        lemma_chain_lines_keep(ms, p, q);
        let a = chain_lines(ms, p);
        let l = lines.last();
        assert(accepts_at(ms, 0, lines[lines.len() - 1], q));
        assert(accepts_at(a.0, 0, l, q));
        assert forall|k: int| 0 <= k < seq![l].len() implies accepts_at(a.0, 0, #[trigger] seq![l][k], q) by {
            assert(seq![l][k] == l);
        }
        lemma_feed_keeps(a.0, 0, seq![l], q);
        lemma_all_q_add(a.1, feed_spec(a.0, 0, seq![l]).1, q);
    }
}

/// The hard rule: every line that survives a run is an input line byte for
/// byte (cleaned of colour codes unless those are kept), or a line a stage
/// writes in place of lines it dropped: a repeat note, an omitted-frames
/// marker, a recomputed hunk header, a skipped-file marker, or the blank
/// line a blank run collapses to. Nothing is paraphrased or rewritten.
pub proof fn lemma_survivors_are_kept_lines(config: Config, lines: Seq<Seq<char>>)
    ensures
        forall|k: int|
            0 <= k < chain_run(config, lines).1.len() ==> kept_lines(config, lines).contains(
                #[trigger] chain_run(config, lines).1[k],
            ) || marker_line(chain_run(config, lines).1[k]),
{
    let base = kept_lines(config, lines);
    let q = |l: Seq<char>| base.contains(l) || marker_line(l);
    let ms0 = start_chain(config, lines);
    lemma_chain_spec_known(detected_format(config, lines), config);
    assert(admits_markers(q));
    assert(stages_ok(ms0, q));
    assert(ansi_first_only(ms0));
    assert forall|k: int| 0 <= k < lines.len() implies accepts_at(ms0, 0, #[trigger] lines[k], q) by {
        if config.preserve_ansi {
            assert(base[k] == lines[k]);
        } else {
            assert(base[k] == clean_spec(true, lines[k]));
            assert(ms0[0] == StageModel::Ansi(true));
        }
    }
    lemma_chain_lines_keep(ms0, lines, q);
    let a = chain_lines(ms0, lines);
    lemma_finish_keeps(a.0, 0, q);
    lemma_all_q_add(a.1, finish_from(a.0, 0).1, q);
    let out = chain_run(config, lines).1;
    assert(out == a.1 + finish_from(a.0, 0).1);
    assert forall|k: int| 0 <= k < out.len() implies base.contains(#[trigger] out[k]) || marker_line(
        out[k],
    ) by {
        assert(q(out[k]));
    }
}

proof fn lemma_chain_lines_in_order(ms: Seq<StageModel>, lines: Seq<Seq<char>>)
    requires
        all_known(ms),
        all_inv(ms),
        ansi_first_only(ms),
    ensures
        is_subseq(
            content_of(chain_lines(ms, lines).1) + content_of(pending_from(chain_lines(ms, lines).0, 0)),
            content_of(pending_from(ms, 0)) + content_of(entry_inputs(ms, 0, lines)),
        ),
        all_known(chain_lines(ms, lines).0),
        all_inv(chain_lines(ms, lines).0),
        ansi_first_only(chain_lines(ms, lines).0),
        chain_lines(ms, lines).0.len() == ms.len(),
        ms.len() > 0 ==> (chain_lines(ms, lines).0[0] is Ansi <==> ms[0] is Ansi),
        ms.len() > 0 && ms[0] is Ansi ==> chain_lines(ms, lines).0[0] == ms[0],
    decreases lines.len(),
{
    let e = Seq::<Seq<char>>::empty();
    if lines.len() == 0 {
        assert(entry_inputs(ms, 0, lines) =~= e);
        assert(content_of(e) =~= e);
        assert(content_of(pending_from(ms, 0)) + e =~= content_of(pending_from(ms, 0)));
        assert(e + content_of(pending_from(ms, 0)) =~= content_of(pending_from(ms, 0)));
        lemma_subseq_refl(content_of(pending_from(ms, 0)));
    } else {
        let p = lines.drop_last();
        let l = lines.last();
        lemma_chain_lines_in_order(ms, p);
        let a = chain_lines(ms, p);
        lemma_feed_in_order(a.0, 0, seq![l]);
        let b = feed_spec(a.0, 0, seq![l]);
        let x = entry_inputs(ms, 0, seq![l]);
        assert(entry_inputs(a.0, 0, seq![l]) == x) by {
            if ms.len() > 0 {
                if ms[0] is Ansi {
                    assert(a.0[0] == ms[0]);
                } else {
                    assert(stage_inputs(a.0[0], seq![l]) =~= seq![l]);
                    assert(stage_inputs(ms[0], seq![l]) =~= seq![l]);
                }
            }
        }
        assert(entry_inputs(ms, 0, lines) =~= entry_inputs(ms, 0, p) + x) by {
            if ms.len() > 0 {
                assert(stage_inputs(ms[0], lines) =~= stage_inputs(ms[0], p) + stage_inputs(
                    ms[0],
                    seq![l],
                ));
            }
        }
        let ca = content_of(a.1);
        let cb = content_of(b.1);
        let pa = content_of(pending_from(a.0, 0));
        let pb = content_of(pending_from(b.0, 0));
        let p0 = content_of(pending_from(ms, 0));
        let ip = content_of(entry_inputs(ms, 0, p));
        let cx = content_of(x);
        // ca + cb + pb <= ca + pa + cx <= p0 + ip + cx
        lemma_subseq_refl(ca);
        lemma_subseq_concat(ca, ca, cb + pb, pa + cx);
        lemma_subseq_refl(cx);
        lemma_subseq_concat(ca + pa, p0 + ip, cx, cx);
        assert(ca + (pa + cx) =~= ca + pa + cx);
        lemma_subseq_trans(ca + (cb + pb), ca + pa + cx, p0 + ip + cx);
        lemma_content_add(a.1, b.1);
        lemma_content_add(entry_inputs(ms, 0, p), x);
        assert(chain_lines(ms, lines) == (b.0, a.1 + b.1));
        assert(ca + (cb + pb) =~= content_of(a.1 + b.1) + pb);
        assert(p0 + ip + cx =~= p0 + content_of(entry_inputs(ms, 0, lines)));
    }
}

proof fn lemma_pending_from_empty(ms: Seq<StageModel>, k: int)
    requires
        0 <= k,
        forall|i: int| k <= i < ms.len() ==> #[trigger] stage_pending(ms[i]) == Seq::<Seq<char>>::empty(),
    ensures
        pending_from(ms, k) == Seq::<Seq<char>>::empty(),
    decreases ms.len() - k,
{
    if k < ms.len() {
        lemma_pending_from_empty(ms, k + 1);
        assert(pending_from(ms, k) =~= Seq::<Seq<char>>::empty() + stage_pending(ms[k]));
    }
}

/// Nothing is reordered: the content lines a run writes (the lines that are
/// not notes or markers) are the input lines, cleaned of colour codes unless
/// those are kept, with some left out and the rest in the order they came.
pub proof fn lemma_content_keeps_order(config: Config, lines: Seq<Seq<char>>)
    ensures
        is_subseq(content_of(chain_run(config, lines).1), content_of(kept_lines(config, lines))),
{
    let e = Seq::<Seq<char>>::empty();
    let ms0 = start_chain(config, lines);
    lemma_chain_spec_known(detected_format(config, lines), config);
    assert(all_inv(ms0));
    assert forall|i: int| 0 <= i < ms0.len() implies #[trigger] stage_pending(ms0[i]) =~= e by {}
    lemma_pending_from_empty(ms0, 0);
    assert(entry_inputs(ms0, 0, lines) =~= kept_lines(config, lines)) by {
        if config.preserve_ansi {
            assert(!(ms0[0] is Ansi));
            assert(stage_inputs(ms0[0], lines) =~= lines);
        } else {
            assert(ms0[0] == StageModel::Ansi(true));
        }
    }
    lemma_chain_lines_in_order(ms0, lines);
    let a = chain_lines(ms0, lines);
    lemma_finish_in_order(a.0, 0);
    let f = finish_from(a.0, 0);
    let ca = content_of(a.1);
    let pa = content_of(pending_from(a.0, 0));
    let cf = content_of(f.1);
    let pf = content_of(pending_from(f.0, 0));
    let k = content_of(kept_lines(config, lines));
    assert(content_of(e) =~= e);
    assert(e + k =~= k);
    // ca + cf + pf <= ca + pa <= k
    lemma_subseq_refl(ca);
    lemma_subseq_concat(ca, ca, cf + pf, pa);
    lemma_subseq_trans(ca + (cf + pf), ca + pa, k);
    assert(ca + (cf + pf) =~= ca + cf + pf);
    lemma_subseq_prefix(ca + cf, pf, k);
    lemma_content_add(a.1, f.1);
    assert(chain_run(config, lines).1 == a.1 + f.1);
}

/// Nothing stays held at end of input: once a run has flushed, no stage
/// holds back a line (an open trace, an open repeat run, a buffered hunk).
pub proof fn lemma_nothing_held_after_run(config: Config, lines: Seq<Seq<char>>)
    ensures
        forall|i: int|
            0 <= i < chain_run(config, lines).0.len() ==> #[trigger] stage_pending(
                chain_run(config, lines).0[i],
            ) == Seq::<Seq<char>>::empty(),
{
    let ms0 = start_chain(config, lines);
    lemma_chain_spec_known(detected_format(config, lines), config);
    assert(all_inv(ms0));
    lemma_chain_lines_in_order(ms0, lines);
    let a = chain_lines(ms0, lines);
    lemma_finish_empties(a.0, 0);
    lemma_finish_in_order(a.0, 0);
    let r = chain_run(config, lines).0;
    assert(r == finish_from(a.0, 0).0);
    assert forall|i: int| 0 <= i < r.len() implies #[trigger] stage_pending(r[i])
        == Seq::<Seq<char>>::empty() by {
        assert(0 <= i < a.0.len());
    }
}

/// Content lines as a layout writes them.
pub open spec fn render_all(layout: OutputFormat, lines: Seq<Seq<char>>) -> Seq<Seq<char>> {
    lines.map_values(|l: Seq<char>| line_spec(layout, l))
}

/// The chain a run over `lines` uses, fresh.
pub open spec fn start_chain(config: Config, lines: Seq<Seq<char>>) -> Seq<StageModel> {
    chain_spec(detected_format(config, lines), config)
}

/// The chain's state and output after every line and the final flush.
pub open spec fn chain_run(config: Config, lines: Seq<Seq<char>>) -> (
    Seq<StageModel>,
    Seq<Seq<char>>,
) {
    let a = chain_lines(start_chain(config, lines), lines);
    let f = finish_from(a.0, 0);
    (f.0, a.1 + f.1)
}

/// Everything a run over `lines` writes, line by line.
pub open spec fn rendered_spec(config: Config, lines: Seq<Seq<char>>) -> Seq<Seq<char>> {
    let r = chain_run(config, lines);
    begin_spec(config.format, detected_format(config, lines)) + render_all(config.format, r.1)
        + end_spec(config.format, summary_spec(r.0))
}

/// `n`, saturated at `usize::MAX`.
pub open spec fn sat(n: int) -> nat {
    if n <= usize::MAX {
        n as nat
    } else {
        usize::MAX as nat
    }
}

/// Lines, bytes (each line with its newline) and token units counted over
/// `lines`, each total saturating.
pub open spec fn counts_over(lines: Seq<Seq<char>>) -> (nat, nat, nat)
    decreases lines.len(),
{
    if lines.len() == 0 {
        (0, 0, 0)
    } else {
        let c = counts_over(lines.drop_last());
        let b = encode_utf8(lines.last());
        (sat(c.0 + 1int), sat(c.1 + b.len() + 1int), sat(c.2 + units_spec(b) + NEWLINE_UNITS as int))
    }
}

/// Sizes before and after, from the counts of the input and of the content.
pub open spec fn stats_spec(input: Seq<Seq<char>>, content: Seq<Seq<char>>) -> ReductionStats {
    let r = counts_over(input);
    let k = counts_over(content);
    ReductionStats {
        raw_bytes: r.1 as usize,
        reduced_bytes: k.1 as usize,
        raw_tokens: (r.2 / SCALE as nat) as usize,
        reduced_tokens: (k.2 / SCALE as nat) as usize,
        raw_lines: r.0 as usize,
        reduced_lines: k.0 as usize,
    }
}

/// What a run over `lines` reports.
pub open spec fn outcome_matches(o: Outcome, config: Config, lines: Seq<Seq<char>>) -> bool {
    let r = chain_run(config, lines);
    &&& o.detected_type == detected_format(config, lines)
    &&& lines_view(o.error_summary@) == summary_spec(r.0)
    &&& o.stats == stats_spec(lines, r.1)
}

// ---------------------------------------------------------------------------
// Streaming
// ---------------------------------------------------------------------------

/// What a session writes when it takes `line` after `seen`: nothing while the
/// head fills; the opening lines and the whole head once it is full; then
/// each line's output as it comes.
pub open spec fn step_output(config: Config, seen: Seq<Seq<char>>, line: Seq<char>) -> Seq<
    Seq<char>,
> {
    let s1 = seen.push(line);
    let ms0 = start_chain(config, s1);
    if s1.len() < HEAD_LINES {
        Seq::empty()
    } else if s1.len() == HEAD_LINES {
        begin_spec(config.format, detected_format(config, s1)) + render_all(
            config.format,
            chain_lines(ms0, s1).1,
        )
    } else {
        render_all(config.format, feed_spec(chain_lines(ms0, seen).0, 0, seq![line]).1)
    }
}

/// What a session writes at the end of input after `seen`.
pub open spec fn finish_output(config: Config, seen: Seq<Seq<char>>) -> Seq<Seq<char>> {
    let ms0 = start_chain(config, seen);
    let a = chain_lines(ms0, seen);
    let f = finish_from(a.0, 0);
    (if seen.len() < HEAD_LINES {
        begin_spec(config.format, detected_format(config, seen)) + render_all(config.format, a.1)
    } else {
        Seq::empty()
    }) + render_all(config.format, f.1) + end_spec(config.format, summary_spec(f.0))
}

/// Counts over a stream of lines.
struct Tally {
    lines: usize,
    bytes: usize,
    tokens: Counter,
}

impl Tally {
    spec fn model(self) -> (nat, nat, nat) {
        (self.lines as nat, self.bytes as nat, self.tokens.spec_units())
    }

    fn new() -> (t: Self)
        ensures
            t.model() == counts_over(Seq::empty()),
    {
        Tally { lines: 0, bytes: 0, tokens: Counter::new() }
    }

    fn observe(&mut self, line: &str, Ghost(seen): Ghost<Seq<Seq<char>>>)
        requires
            old(self).model() == counts_over(seen),
        ensures
            final(self).model() == counts_over(seen.push(line@)),
    {
        let ghost s1 = seen.push(line@);
        proof {
            assert(s1.drop_last() =~= seen);
            assert(s1.last() == line@);
        }
        let n = line.as_bytes().len();
        assert(n == encode_utf8(line@).len());
        self.lines = self.lines.saturating_add(1);
        self.bytes = self.bytes.saturating_add(n).saturating_add(1);
        self.tokens.add_line(line);
        assert(self.tokens.spec_units() == counts_over(s1).2);
        assert(self.bytes == counts_over(s1).1);
        assert(self.lines == counts_over(s1).0);
    }

    fn observe_all(&mut self, lines: &Vec<String>, Ghost(seen): Ghost<Seq<Seq<char>>>)
        requires
            old(self).model() == counts_over(seen),
        ensures
            final(self).model() == counts_over(seen + lines_view(lines@)),
    {
        let mut i: usize = 0;
        proof {
            assert(seen + lines_view(lines@).take(0) =~= seen);
        }
        while i < lines.len()
            invariant
                i <= lines@.len(),
                self.model() == counts_over(seen + lines_view(lines@).take(i as int)),
            decreases lines@.len() - i,
        {
            let ghost before = seen + lines_view(lines@).take(i as int);
            self.observe(lines[i].as_str(), Ghost(before));
            proof {
                assert(before.push(lines@[i as int]@) =~= seen + lines_view(lines@).take(i + 1));
            }
            i = i + 1;
        }
        proof {
            assert(lines_view(lines@).take(lines@.len() as int) =~= lines_view(lines@));
        }
    }
}


pub proof fn lemma_head_stable(seen: Seq<Seq<char>>, line: Seq<char>, config: Config)
    requires
        seen.len() >= HEAD_LINES,
    ensures
        head_of(seen.push(line)) == head_of(seen),
        detected_format(config, seen.push(line)) == detected_format(config, seen),
{
    assert(seen.push(line).take(HEAD_LINES as int) =~= seen.take(HEAD_LINES as int));
    if seen.len() == HEAD_LINES {
        assert(seen.take(HEAD_LINES as int) =~= seen);
    }
}

pub proof fn lemma_chain_lines_known(ms: Seq<StageModel>, lines: Seq<Seq<char>>)
    ensures
        chain_lines(ms, lines).0.len() == ms.len(),
        all_known(ms) ==> all_known(chain_lines(ms, lines).0),
    decreases lines.len(),
{
    if lines.len() > 0 {
        lemma_chain_lines_known(ms, lines.drop_last());
        let a = chain_lines(ms, lines.drop_last());
        crate::processors::lemma_feed_len(a.0, 0, seq![lines.last()]);
    }
}

pub proof fn lemma_chain_spec_known(format: FormatType, config: Config)
    ensures
        all_known(chain_spec(format, config)),
{
}

pub proof fn lemma_render_all_add(layout: OutputFormat, a: Seq<Seq<char>>, b: Seq<Seq<char>>)
    ensures
        render_all(layout, a + b) == render_all(layout, a) + render_all(layout, b),
{
    assert(render_all(layout, a + b) =~= render_all(layout, a) + render_all(layout, b));
}

/// Once the head is full, a line's output is what the chain makes of it.
pub proof fn lemma_step_fed(config: Config, seen: Seq<Seq<char>>, line: Seq<char>)
    requires
        seen.len() >= HEAD_LINES,
    ensures
        ({
            let s1 = seen.push(line);
            let ms0 = start_chain(config, seen);
            let a = chain_lines(ms0, seen);
            let b = feed_spec(a.0, 0, seq![line]);
            &&& start_chain(config, s1) == ms0
            &&& detected_format(config, s1) == detected_format(config, seen)
            &&& chain_lines(ms0, s1) == (b.0, a.1 + b.1)
            &&& step_output(config, seen, line) == render_all(config.format, b.1)
            &&& all_known(ms0) ==> all_known(a.0)
        }),
{
    let s1 = seen.push(line);
    lemma_head_stable(seen, line, config);
    assert(s1.drop_last() =~= seen);
    lemma_chain_lines_known(start_chain(config, seen), seen);
}

/// What a session writes over `lines`, before the end of input.
pub open spec fn streamed(config: Config, lines: Seq<Seq<char>>) -> Seq<Seq<char>>
    decreases lines.len(),
{
    if lines.len() == 0 {
        Seq::empty()
    } else {
        streamed(config, lines.drop_last()) + step_output(
            config,
            lines.drop_last(),
            lines.last(),
        )
    }
}

proof fn lemma_streamed_while_buffering(config: Config, lines: Seq<Seq<char>>)
    requires
        lines.len() < HEAD_LINES,
    ensures
        streamed(config, lines) == Seq::<Seq<char>>::empty(),
    decreases lines.len(),
{
    if lines.len() > 0 {
        lemma_streamed_while_buffering(config, lines.drop_last());
        assert(lines.drop_last().push(lines.last()) =~= lines);
    }
}

#[verifier::rlimit(40)]
proof fn lemma_streamed_once_started(config: Config, lines: Seq<Seq<char>>)
    requires
        lines.len() >= HEAD_LINES,
    ensures
        streamed(config, lines) == begin_spec(config.format, detected_format(config, lines))
            + render_all(config.format, chain_lines(start_chain(config, lines), lines).1),
    decreases lines.len(),
{
    let p = lines.drop_last();
    let l = lines.last();
    assert(p.push(l) =~= lines);
    if lines.len() == HEAD_LINES {
        lemma_streamed_while_buffering(config, p);
        assert(Seq::<Seq<char>>::empty() + step_output(config, p, l) =~= step_output(config, p, l));
    } else {
        lemma_streamed_once_started(config, p);
        lemma_step_fed(config, p, l);
        let ms0 = start_chain(config, p);
        let a = chain_lines(ms0, p);
        let b = feed_spec(a.0, 0, seq![l]);
        lemma_render_all_add(config.format, a.1, b.1);
        assert(begin_spec(config.format, detected_format(config, p)) + render_all(config.format, a.1)
            + render_all(config.format, b.1) =~= begin_spec(
            config.format,
            detected_format(config, p),
        ) + render_all(config.format, a.1 + b.1));
    }
}

/// Streaming changes nothing: the lines a session writes, line by line and
/// then at the end of input, are exactly what rendering the whole input at
/// once writes.
#[verifier::rlimit(40)]
pub proof fn lemma_streaming_matches_whole(config: Config, lines: Seq<Seq<char>>)
    ensures
        streamed(config, lines) + finish_output(config, lines) == rendered_spec(config, lines),
{
    let ms0 = start_chain(config, lines);
    let a = chain_lines(ms0, lines);
    let f = finish_from(a.0, 0);
    let layout = config.format;
    let fmt = detected_format(config, lines);
    lemma_render_all_add(layout, a.1, f.1);
    if lines.len() < HEAD_LINES {
        lemma_streamed_while_buffering(config, lines);
        assert(Seq::<Seq<char>>::empty() + finish_output(config, lines) =~= rendered_spec(
            config,
            lines,
        ));
    } else {
        lemma_streamed_once_started(config, lines);
        assert(begin_spec(layout, fmt) + render_all(layout, a.1) + (Seq::<Seq<char>>::empty()
            + render_all(layout, f.1) + end_spec(layout, summary_spec(f.0))) =~= rendered_spec(
            config,
            lines,
        ));
    }
}

fn copy_config(c: &Config) -> (d: Config)
    ensures
        d == *c,
{
    Config {
        preset: c.preset,
        format: c.format,
        keep_frames: c.keep_frames,
        preserve_ansi: c.preserve_ansi,
        dedupe_only: c.dedupe_only,
        context_lines: c.context_lines,
        dedupe_window: c.dedupe_window,
        fuzzy_dedupe: c.fuzzy_dedupe,
    }
}

/// Append `lines` as `layout` writes content lines.
fn emit_all(layout: OutputFormat, lines: &Vec<String>, out: &mut Vec<String>)
    ensures
        lines_view(final(out)@) == lines_view(old(out)@) + render_all(layout, lines_view(lines@)),
{
    let ghost start = lines_view(out@);
    let ghost all = render_all(layout, lines_view(lines@));
    let mut i: usize = 0;
    proof {
        assert(start + all.take(0) =~= start);
    }
    while i < lines.len()
        invariant
            i <= lines@.len(),
            all == render_all(layout, lines_view(lines@)),
            lines_view(out@) == start + all.take(i as int),
        decreases lines@.len() - i,
    {
        render_line(layout, out, lines[i].as_str());
        proof {
            assert(all.take(i + 1) =~= all.take(i as int).push(all[i as int]));
        }
        i = i + 1;
    }
    proof {
        assert(all.take(all.len() as int) =~= all);
    }
}

/// The detector's verdict on the buffered head, cleaned of colour codes
/// unless they are kept.
fn detect_head(head: &Vec<String>, preserve_ansi: bool) -> (f: FormatType)
    ensures
        f == detect_spec(
            if preserve_ansi {
                lines_view(head@)
            } else {
                lines_view(head@).map_values(|l: Seq<char>| clean_spec(true, l))
            },
        ),
{
    let stripper = AnsiStripper::new();
    let mut cleaned: Vec<String> = Vec::new();
    let mut i: usize = 0;
    while i < head.len()
        invariant
            i <= head@.len(),
            stripper.spec_collapse_cr(),
            cleaned@.len() == i,
            forall|j: int|
                0 <= j < i ==> #[trigger] cleaned@[j]@ == (if preserve_ansi {
                    head@[j]@
                } else {
                    clean_spec(true, head@[j]@)
                }),
        decreases head@.len() - i,
    {
        if preserve_ansi {
            cleaned.push(head[i].clone());
        } else {
            cleaned.push(stripper.clean(head[i].as_str()));
        }
        i = i + 1;
    }
    let mut refs: Vec<&str> = Vec::new();
    let mut k: usize = 0;
    while k < cleaned.len()
        invariant
            k <= cleaned@.len(),
            refs@.len() == k,
            forall|j: int| 0 <= j < k ==> #[trigger] refs@[j]@ == cleaned@[j]@,
        decreases cleaned@.len() - k,
    {
        refs.push(cleaned[k].as_str());
        k = k + 1;
    }
    let f = detect(refs.as_slice());
    proof {
        let want = if preserve_ansi {
            lines_view(head@)
        } else {
            lines_view(head@).map_values(|l: Seq<char>| clean_spec(true, l))
        };
        assert(refs@.map_values(|l: &str| l@) =~= want);
    }
    f
}

struct Active {
    format: FormatType,
    chain: Chain,
}

/// A run in progress: it takes input lines one at a time and hands back the
/// output lines that are ready. Memory is bounded by [`HEAD_LINES`] plus what
/// the processors hold, never by the size of the input.
pub struct Session {
    config: Config,
    head: Vec<String>,
    active: Option<Active>,
    raw: Tally,
    kept: Tally,
    seen: Ghost<Seq<Seq<char>>>,
}

impl Session {
    /// The input lines taken so far.
    pub closed spec fn seen(self) -> Seq<Seq<char>> {
        self.seen@
    }

    /// The configuration the session runs with.
    pub closed spec fn config_view(self) -> Config {
        self.config
    }

    /// The session's state agrees with the lines it has taken.
    pub closed spec fn wf(self) -> bool {
        &&& self.raw.model() == counts_over(self.seen@)
        &&& match self.active {
            None => {
                &&& lines_view(self.head@) == self.seen@
                &&& self.seen@.len() < HEAD_LINES
                &&& self.kept.model() == counts_over(Seq::empty())
            },
            Some(a) => {
                let ms0 = start_chain(self.config, self.seen@);
                &&& self.seen@.len() >= HEAD_LINES
                &&& a.format == detected_format(self.config, self.seen@)
                &&& all_known(a.chain@)
                &&& a.chain@ == chain_lines(ms0, self.seen@).0
                &&& self.kept.model() == counts_over(chain_lines(ms0, self.seen@).1)
            },
        }
    }

    pub fn new(config: &Config) -> (s: Self)
        ensures
            s.wf(),
            s.seen() == Seq::<Seq<char>>::empty(),
            s.config_view() == *config,
    {
        let s = Session {
            config: copy_config(config),
            head: Vec::new(),
            active: None,
            raw: Tally::new(),
            kept: Tally::new(),
            seen: Ghost(Seq::empty()),
        };
        proof {
            assert(lines_view(s.head@) =~= Seq::<Seq<char>>::empty());
        }
        s
    }

    /// Detect the format on the buffered head, open the output and replay
    /// the head through the chain.
    fn start(&mut self, out: &mut Vec<String>)
        requires
            old(self).active is None,
            lines_view(old(self).head@) == old(self).seen@,
            old(self).seen@.len() <= HEAD_LINES,
            old(self).kept.model() == counts_over(Seq::empty()),
        ensures
            final(self).seen() == old(self).seen(),
            final(self).config_view() == old(self).config_view(),
            final(self).raw == old(self).raw,
            final(self).active matches Some(a) && ({
                let ms0 = start_chain(final(self).config, final(self).seen@);
                &&& a.format == detected_format(final(self).config, final(self).seen@)
                &&& all_known(a.chain@)
                &&& a.chain@ == chain_lines(ms0, final(self).seen@).0
                &&& final(self).kept.model() == counts_over(chain_lines(ms0, final(self).seen@).1)
            }),
            lines_view(final(out)@) == lines_view(old(out)@) + begin_spec(
                old(self).config.format,
                detected_format(old(self).config, old(self).seen@),
            ) + render_all(
                old(self).config.format,
                chain_lines(start_chain(old(self).config, old(self).seen@), old(self).seen@).1,
            ),
    {
        let ghost seen = self.seen@;
        let ghost cfg = self.config;
        let ghost raw0 = self.raw;
        proof {
            assert(head_of(seen) == seen);
        }
        let format = match self.config.preset.as_format() {
            Some(f) => f,
            None => detect_head(&self.head, self.config.preserve_ansi),
        };
        let ghost ms0 = chain_spec(format, cfg);
        let mut chain = build_chain(format, &self.config);
        proof {
            lemma_chain_spec_known(format, cfg);
        }
        let ctx = RenderContext { format, error_summary: Vec::new() };
        render_begin(self.config.format, out, &ctx);
        let ghost opened = lines_view(out@);
        let mut i: usize = 0;
        proof {
            assert(seen.take(0) =~= Seq::<Seq<char>>::empty());
            assert(opened + render_all(cfg.format, Seq::empty()) =~= opened);
        }
        while i < self.head.len()
            invariant
                i <= self.head@.len(),
                lines_view(self.head@) == seen,
                self.config == cfg,
                self.seen@ == seen,
                self.raw == raw0,
                self.active is None,
                self.kept.model() == counts_over(chain_lines(ms0, seen.take(i as int)).1),
                all_known(chain@),
                chain@ == chain_lines(ms0, seen.take(i as int)).0,
                lines_view(out@) == opened + render_all(
                    cfg.format,
                    chain_lines(ms0, seen.take(i as int)).1,
                ),
            decreases self.head@.len() - i,
        {
            let ghost prefix = seen.take(i as int);
            let ghost a = chain_lines(ms0, prefix);
            let mut tmp: Vec<String> = Vec::new();
            chain.on_line(self.head[i].as_str(), &mut tmp);
            proof {
                assert(seen.take(i + 1).drop_last() =~= prefix);
                assert(seen.take(i + 1).last() == self.head@[i as int]@);
                assert(lines_view(tmp@) =~= Seq::<Seq<char>>::empty() + lines_view(tmp@));
                lemma_render_all_add(cfg.format, a.1, lines_view(tmp@));
            }
            self.kept.observe_all(&tmp, Ghost(a.1));
            emit_all(self.config.format, &tmp, out);
            proof {
                assert(opened + render_all(cfg.format, a.1) + render_all(
                    cfg.format,
                    lines_view(tmp@),
                ) =~= opened + render_all(cfg.format, a.1 + lines_view(tmp@)));
            }
            i = i + 1;
        }
        proof {
            assert(seen.take(seen.len() as int) =~= seen);
        }
        self.head = Vec::new();
        self.active = Some(Active { format, chain });
    }

    /// Take one input line; the output lines it makes ready are appended to
    /// `out`.
    pub fn push_line(&mut self, line: &str, out: &mut Vec<String>)
        requires
            old(self).wf(),
        ensures
            final(self).wf(),
            final(self).seen() == old(self).seen().push(line@),
            final(self).config_view() == old(self).config_view(),
            lines_view(final(out)@) == lines_view(old(out)@) + step_output(
                old(self).config_view(),
                old(self).seen(),
                line@,
            ),
    {
        if self.active.is_none() {
            self.buffer_line(line, out);
        } else {
            self.feed_line(line, out);
        }
    }

    fn buffer_line(&mut self, line: &str, out: &mut Vec<String>)
        requires
            old(self).wf(),
            old(self).active is None,
        ensures
            final(self).wf(),
            final(self).seen() == old(self).seen().push(line@),
            final(self).config_view() == old(self).config_view(),
            lines_view(final(out)@) == lines_view(old(out)@) + step_output(
                old(self).config_view(),
                old(self).seen(),
                line@,
            ),
    {
        let ghost seen = self.seen@;
        let ghost s1 = seen.push(line@);
        self.raw.observe(line, Ghost(seen));
        self.seen = Ghost(s1);
        self.head.push(line.to_owned());
        proof {
            assert(lines_view(self.head@) =~= s1);
        }
        if self.head.len() >= HEAD_LINES {
            self.start(out);
        } else {
            proof {
                assert(lines_view(out@) + Seq::<Seq<char>>::empty() =~= lines_view(out@));
            }
        }
    }

    fn feed_line(&mut self, line: &str, out: &mut Vec<String>)
        requires
            old(self).wf(),
            old(self).active is Some,
        ensures
            final(self).wf(),
            final(self).seen() == old(self).seen().push(line@),
            final(self).config_view() == old(self).config_view(),
            lines_view(final(out)@) == lines_view(old(out)@) + step_output(
                old(self).config_view(),
                old(self).seen(),
                line@,
            ),
    {
        let ghost seen = self.seen@;
        let ghost s1 = seen.push(line@);
        let ghost cfg = self.config;
        let ghost ms0 = start_chain(cfg, seen);
        let ghost a = chain_lines(ms0, seen);
        proof {
            lemma_step_fed(cfg, seen, line@);
        }
        self.raw.observe(line, Ghost(seen));
        self.seen = Ghost(s1);
        let layout = self.config.format;
        let mut tmp: Vec<String> = Vec::new();
        if let Some(act) = &mut self.active {
            act.chain.on_line(line, &mut tmp);
        }
        proof {
            assert(lines_view(tmp@) =~= Seq::<Seq<char>>::empty() + lines_view(tmp@));
        }
        self.kept.observe_all(&tmp, Ghost(a.1));
        emit_all(layout, &tmp, out);
    }

    /// End of input: flush the chain and close the output. The remaining
    /// output lines are appended to `out`.
#[verifier::rlimit(40)]
    pub fn finish(self, out: &mut Vec<String>) -> (o: Outcome)
        requires
            self.wf(),
        ensures
            lines_view(final(out)@) == lines_view(old(out)@) + finish_output(
                self.config_view(),
                self.seen(),
            ),
            outcome_matches(o, self.config_view(), self.seen()),
    {
        let mut s = self;
        let ghost seen = s.seen@;
        let ghost cfg = s.config;
        let ghost ms0 = start_chain(cfg, seen);
        let ghost a = chain_lines(ms0, seen);
        let ghost out0 = lines_view(out@);
        if s.active.is_none() {
            s.start(out);
        } else {
            proof {
                assert(lines_view(out@) =~= out0 + Seq::<Seq<char>>::empty());
            }
        }
        let ghost opened = lines_view(out@);
        let layout = s.config.format;
        let mut tmp: Vec<String> = Vec::new();
        let mut summary: Vec<String> = Vec::new();
        let mut format = FormatType::GenericLog;
        if let Some(act) = &mut s.active {
            act.chain.finish(&mut tmp);
            summary = act.chain.summary();
            format = act.format;
        }
        let ghost f = finish_from(a.0, 0);
        proof {
            lemma_chain_lines_known(ms0, seen);
            assert(lines_view(tmp@) =~= Seq::<Seq<char>>::empty() + lines_view(tmp@));
        }
        s.kept.observe_all(&tmp, Ghost(a.1));
        emit_all(layout, &tmp, out);
        let ctx = RenderContext { format, error_summary: summary };
        render_end(layout, out, &ctx);
        proof {
            assert(lines_view(out@) =~= out0 + finish_output(cfg, seen));
        }
        let stats = ReductionStats {
            raw_bytes: s.raw.bytes,
            reduced_bytes: s.kept.bytes,
            raw_tokens: s.raw.tokens.tokens(),
            reduced_tokens: s.kept.tokens.tokens(),
            raw_lines: s.raw.lines,
            reduced_lines: s.kept.lines,
        };
        Outcome { detected_type: format, error_summary: ctx.error_summary, stats }
    }
}

// ---------------------------------------------------------------------------
// Whole inputs
// ---------------------------------------------------------------------------

/// Where the line that starts at `i` ends: at the next newline, or at the
/// end of the input.
pub open spec fn line_end(b: Seq<u8>, i: int) -> int
    decreases b.len() - i,
{
    if 0 <= i < b.len() && b[i] != 10 {
        line_end(b, i + 1)
    } else {
        i
    }
}

pub proof fn lemma_line_end(b: Seq<u8>, i: int)
    requires
        0 <= i <= b.len(),
    ensures
        i <= line_end(b, i) <= b.len(),
        line_end(b, i) < b.len() ==> b[line_end(b, i)] == 10,
        forall|k: int| i <= k < line_end(b, i) ==> b[k] != 10,
    decreases b.len() - i,
{
    if i < b.len() && b[i] != 10 {
        lemma_line_end(b, i + 1);
    }
}

/// A line as read: its trailing newline, and a carriage return just before
/// that newline, dropped.
pub open spec fn line_body(raw: Seq<u8>) -> Seq<u8> {
    if raw.len() > 0 && raw.last() == 10 {
        let b = raw.drop_last();
        if b.len() > 0 && b.last() == 13 {
            b.drop_last()
        } else {
            b
        }
    } else {
        raw
    }
}

/// The bytes of the input lines from offset `i` on: the input split after
/// each newline, each piece taken by [`line_body`]. A last line without a
/// newline counts; nothing after the last newline makes no line.
pub open spec fn raw_lines_from(b: Seq<u8>, i: int) -> Seq<Seq<u8>>
    decreases b.len() - i,
    via raw_lines_decrease
{
    if i < 0 || i >= b.len() {
        Seq::empty()
    } else {
        let e = line_end(b, i);
        if e < b.len() {
            seq![line_body(b.subrange(i, e + 1))] + raw_lines_from(b, e + 1)
        } else {
            seq![line_body(b.subrange(i, e))]
        }
    }
}

#[via_fn]
pub proof fn raw_lines_decrease(b: Seq<u8>, i: int) {
    if !(i < 0 || i >= b.len()) {
        lemma_line_end(b, i);
    }
}

/// What `String::from_utf8_lossy` makes of `bytes`: valid UTF-8 decoded,
/// each invalid sequence replaced by U+FFFD.
pub uninterp spec fn lossy_text(bytes: Seq<u8>) -> Seq<char>;

/// `String::from_utf8_lossy`: a function of the bytes alone, named
/// [`lossy_text`]; on valid UTF-8 it is plain decoding, as its
/// documentation says. Which replacement characters stand for invalid
/// sequences is left unsaid here.
#[verifier::external_body]
fn decode_lossy(bytes: &[u8]) -> (s: String)
    ensures
        s@ == lossy_text(bytes@),
        valid_utf8(bytes@) ==> s@ == decode_utf8(bytes@),
{
    String::from_utf8_lossy(bytes).into_owned()
}

/// Decode one line as read (with its newline, if it had one): the
/// terminator dropped, invalid UTF-8 replaced, never rejected.
pub fn decode_line(raw: &[u8]) -> (s: String)
    ensures
        s@ == lossy_text(line_body(raw@)),
{
    let n = raw.len();
    let mut stop = n;
    if n > 0 && raw[n - 1] == 10 {
        stop = n - 1;
        if stop > 0 && raw[stop - 1] == 13 {
            stop = stop - 1;
        }
    }
    let body = vstd::slice::slice_subrange(raw, 0, stop);
    proof {
        let b = raw@;
        if n > 0 && b[n - 1] == 10 {
            assert(b.drop_last() =~= b.subrange(0, n - 1));
            if n - 1 > 0 && b[n - 2] == 13 {
                assert(b.drop_last().drop_last() =~= b.subrange(0, n - 2));
            }
        } else {
            assert(b =~= b.subrange(0, n as int));
        }
        assert(body@ =~= line_body(b));
    }
    decode_lossy(body)
}

/// The input lines from offset `i` on, as text.
pub open spec fn input_lines_from(b: Seq<u8>, i: int) -> Seq<Seq<char>> {
    raw_lines_from(b, i).map_values(|l: Seq<u8>| lossy_text(l))
}

/// The input lines, as text.
pub open spec fn input_lines(b: Seq<u8>) -> Seq<Seq<char>> {
    input_lines_from(b, 0)
}

/// Lines written out in UTF-8, each followed by a newline.
pub open spec fn text_bytes(lines: Seq<Seq<char>>) -> Seq<u8>
    decreases lines.len(),
{
    if lines.len() == 0 {
        Seq::empty()
    } else {
        text_bytes(lines.drop_last()) + encode_utf8(lines.last()) + seq![10u8]
    }
}

/// Lines joined into one text, each followed by a newline.
pub open spec fn text_chars(lines: Seq<Seq<char>>) -> Seq<char>
    decreases lines.len(),
{
    if lines.len() == 0 {
        Seq::empty()
    } else {
        text_chars(lines.drop_last()) + lines.last() + seq!['\n']
    }
}

/// Run a session over every line of `input`; the output lines are appended
/// to `out`.
#[verifier::spinoff_prover]
#[verifier::rlimit(40)]
fn drive(input: &[u8], config: &Config, out: &mut Vec<String>) -> (o: Outcome)
    ensures
        lines_view(final(out)@) == lines_view(old(out)@) + rendered_spec(
            *config,
            input_lines(input@),
        ),
        outcome_matches(o, *config, input_lines(input@)),
{
    let ghost b = input@;
    let ghost all = input_lines(b);
    let ghost out0 = lines_view(out@);
    let mut session = Session::new(config);
    let mut i: usize = 0;
    let n = input.len();
    proof {
        assert(Seq::<Seq<char>>::empty() + input_lines_from(b, 0) =~= all);
        assert(out0 + streamed(*config, Seq::empty()) =~= out0);
    }
    while i < n
        invariant
            n == b.len(),
            input@ == b,
            i <= n,
            session.wf(),
            session.config_view() == *config,
            session.seen() + input_lines_from(b, i as int) == all,
            lines_view(out@) == out0 + streamed(*config, session.seen()),
        decreases n - i,
    {
        let ghost seen = session.seen();
        proof {
            lemma_line_end(b, i as int);
        }
        let mut e = i;
        while e < n && input[e] != 10
            invariant
                i <= e <= n,
                n == b.len(),
                input@ == b,
                forall|k: int| i <= k < e ==> b[k] != 10,
            decreases n - e,
        {
            e = e + 1;
        }
        proof {
            lemma_line_end(b, i as int);
            if line_end(b, i as int) < e {
                assert(b[line_end(b, i as int)] != 10);
            }
            if e < line_end(b, i as int) {
                assert(b[e as int] == 10);
            }
            assert(e == line_end(b, i as int));
        }
        let stop = if e < n {
            e + 1
        } else {
            e
        };
        let piece = vstd::slice::slice_subrange(input, i, stop);
        let text = decode_line(piece);
        proof {
            assert(input_lines_from(b, i as int) =~= seq![text@] + input_lines_from(
                b,
                e + 1,
            ));
        }
        session.push_line(text.as_str(), out);
        proof {
            let s1 = seen.push(text@);
            assert(s1.drop_last() =~= seen);
            assert(s1 + input_lines_from(b, e + 1) =~= seen + input_lines_from(b, i as int));
        }
        if e >= n {
            i = n;
            proof {
                assert(input_lines_from(b, n as int) =~= Seq::<Seq<char>>::empty());
                assert(input_lines_from(b, e + 1) =~= Seq::<Seq<char>>::empty());
            }
        } else {
            i = e + 1;
        }
    }
    proof {
        assert(input_lines_from(b, i as int) =~= Seq::<Seq<char>>::empty());
        assert(session.seen() =~= all);
        lemma_streaming_matches_whole(*config, all);
    }
    let o = session.finish(out);
    proof {
        assert(out0 + streamed(*config, all) + finish_output(*config, all) =~= out0 + (streamed(
            *config,
            all,
        ) + finish_output(*config, all)));
    }
    o
}

/// Append `lines` to `output` in UTF-8, each followed by a newline.
fn write_lines(lines: &Vec<String>, output: &mut Vec<u8>)
    ensures
        final(output)@ == old(output)@ + text_bytes(lines_view(lines@)),
{
    let ghost start = output@;
    let ghost ls = lines_view(lines@);
    let mut i: usize = 0;
    proof {
        assert(ls.take(0) =~= Seq::<Seq<char>>::empty());
        assert(start + text_bytes(Seq::empty()) =~= start);
    }
    while i < lines.len()
        invariant
            i <= lines@.len(),
            ls == lines_view(lines@),
            output@ == start + text_bytes(ls.take(i as int)),
        decreases lines@.len() - i,
    {
        let bytes = lines[i].as_str().as_bytes();
        let ghost before = output@;
        let mut j: usize = 0;
        while j < bytes.len()
            invariant
                j <= bytes@.len(),
                output@ == before + bytes@.take(j as int),
            decreases bytes@.len() - j,
        {
            output.push(bytes[j]);
            proof {
                assert(bytes@.take(j + 1) =~= bytes@.take(j as int).push(bytes@[j as int]));
            }
            j = j + 1;
        }
        output.push(10u8);
        proof {
            assert(bytes@.take(bytes@.len() as int) =~= bytes@);
            assert(ls.take(i + 1).drop_last() =~= ls.take(i as int));
            assert(ls.take(i + 1).last() == lines@[i as int]@);
            assert(output@ =~= start + text_bytes(ls.take(i + 1)));
        }
        i = i + 1;
    }
    proof {
        assert(ls.take(ls.len() as int) =~= ls);
    }
}

/// Compress `input` into `output`: every line the run writes, in UTF-8, each
/// followed by a newline. Input bytes that are not valid UTF-8 do not stop
/// the run; they are decoded lossily.
pub fn run(input: &[u8], output: &mut Vec<u8>, config: &Config) -> (o: Outcome)
    ensures
        final(output)@ == old(output)@ + text_bytes(rendered_spec(*config, input_lines(input@))),
        outcome_matches(o, *config, input_lines(input@)),
{
    let mut lines: Vec<String> = Vec::new();
    let o = drive(input, config, &mut lines);
    proof {
        assert(lines_view(lines@) =~= rendered_spec(*config, input_lines(input@)));
    }
    write_lines(&lines, output);
    o
}

/// The whole-string result of a run over `input`.
pub open spec fn processed_matches(r: ProcessedOutput, config: Config, input: Seq<u8>) -> bool {
    let lines = input_lines(input);
    let c = chain_run(config, lines);
    let st = stats_spec(lines, c.1);
    &&& r.content@ == text_chars(rendered_spec(config, lines))
    &&& r.original_line_count == st.raw_lines
    &&& r.processed_line_count == st.reduced_lines
    &&& r.detected_type == detected_format(config, lines)
    &&& lines_view(r.error_summary@) == summary_spec(c.0)
    &&& r.stats == st
}

/// Whole-string convenience wrapper. Holds the output in memory by
/// definition.
#[verifier::rlimit(40)]
pub fn run_str(input: &str, config: &Config) -> (r: ProcessedOutput)
    ensures
        processed_matches(r, *config, input.spec_bytes()),
{
    let mut lines: Vec<String> = Vec::new();
    let o = drive(input.as_bytes(), config, &mut lines);
    let ghost ls = lines_view(lines@);
    let mut text: Vec<char> = Vec::new();
    let mut i: usize = 0;
    proof {
        assert(ls.take(0) =~= Seq::<Seq<char>>::empty());
    }
    while i < lines.len()
        invariant
            i <= lines@.len(),
            ls == lines_view(lines@),
            text@ == text_chars(ls.take(i as int)),
        decreases lines@.len() - i,
    {
        crate::text::push_str(&mut text, lines[i].as_str());
        text.push('\n');
        proof {
            assert(ls.take(i + 1).drop_last() =~= ls.take(i as int));
            assert(ls.take(i + 1).last() == lines@[i as int]@);
            assert(text@ =~= text_chars(ls.take(i + 1)));
        }
        i = i + 1;
    }
    proof {
        assert(ls.take(ls.len() as int) =~= ls);
    }
    let content = string_of(text.as_slice());
    ProcessedOutput {
        content,
        original_line_count: o.stats.raw_lines,
        processed_line_count: o.stats.reduced_lines,
        detected_type: o.detected_type,
        error_summary: o.error_summary,
        stats: o.stats,
    }
}

} // verus!
