//! Token counting.
//!
//! The counter is a dependency-free estimator ([`heuristic`]); [`bpe`] gives
//! exact `o200k_base` counts through `tiktoken-rs`.

use vstd::prelude::*;
use vstd::string::StringSliceAdditionalSpecFns;

pub mod bpe;
pub mod heuristic;

use heuristic::{units_of, units_spec, NEWLINE_UNITS, SCALE};

verus! {

/// Tokens in `text` (the estimate of [`heuristic`]).
pub fn count(text: &str) -> (n: usize)
    ensures
        n == units_spec(text.spec_bytes()) / SCALE as nat,
{
    heuristic::count(text)
}

/// Accumulates a token count over a stream of lines.
///
/// Counting in fixed-point units and rounding once at the end keeps a
/// line-by-line total identical to counting the whole text in one call.
#[derive(Debug, Default, Clone, Copy)]
pub struct Counter {
    units: usize,
}

impl Counter {
    /// Units accumulated so far.
    pub closed spec fn spec_units(&self) -> nat {
        self.units as nat
    }

    pub fn new() -> (c: Self)
        ensures
            c.spec_units() == 0,
    {
        Counter { units: 0 }
    }

    /// Add one line of text, including the newline that terminates it.
    /// The total saturates at `usize::MAX` rather than wrapping.
    pub fn add_line(&mut self, line: &str)
        ensures
            final(self).spec_units() == (if old(self).spec_units() + units_spec(line.spec_bytes())
                + NEWLINE_UNITS <= usize::MAX {
                old(self).spec_units() + units_spec(line.spec_bytes()) + NEWLINE_UNITS
            } else {
                usize::MAX as int
            }),
    {
        let u = heuristic::units(line);
        self.units = self.units.saturating_add(u).saturating_add(NEWLINE_UNITS);
    }

    /// The accumulated token count.
    pub fn tokens(&self) -> (n: usize)
        ensures
            n == self.spec_units() / SCALE as nat,
    {
        self.units / SCALE
    }
}

/// Whether counts are exact BPE counts rather than estimates.
pub fn is_exact() -> (b: bool)
    ensures
        !b,
{
    false
}

/// `~` when counts are estimated, empty when they are exact, so reported
/// numbers never overstate their own precision.
pub fn approx_marker() -> (m: &'static str)
    ensures
        m@ == (if is_exact_spec() {
            ""@
        } else {
            "~"@
        }),
{
    if is_exact() {
        ""
    } else {
        "~"
    }
}

/// Counts here are estimates.
pub open spec fn is_exact_spec() -> bool {
    false
}

/// Lines joined into one text, each followed by its newline.
pub open spec fn joined(lines: Seq<Seq<u8>>) -> Seq<u8>
    decreases lines.len(),
{
    if lines.len() == 0 {
        Seq::empty()
    } else {
        lines[0] + seq![0x0au8] + joined(lines.drop_first())
    }
}

/// The units a [`Counter`] accumulates over `lines`, before saturation.
pub open spec fn lines_units(lines: Seq<Seq<u8>>) -> nat
    decreases lines.len(),
{
    if lines.len() == 0 {
        0
    } else {
        units_of(lines[0], false) + NEWLINE_UNITS as nat + lines_units(lines.drop_first())
    }
}

/// Counting line by line equals counting the whole newline-joined text in
/// one call.
pub proof fn lemma_counter_matches_whole_text(lines: Seq<Seq<u8>>)
    ensures
        units_of(joined(lines), false) == lines_units(lines),
    decreases lines.len(),
{
    if lines.len() > 0 {
        heuristic::lemma_units_split_at_newline(lines[0], joined(lines.drop_first()), false);
        lemma_counter_matches_whole_text(lines.drop_first());
    }
}

} // verus!
