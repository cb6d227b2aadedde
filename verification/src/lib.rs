//! `ctrim`: strip noise from terminal output before it reaches a language
//! model.
//!
//! The crate is a streaming, line-oriented pipeline:
//!
//! ```text
//! input -> detector -> processor chain -> formatter -> output
//! ```
//!
//! Each processor is a state machine over lines
//! ([`processors::LineProcessor`]), so memory stays bounded regardless of
//! input size. [`process`] is the whole-string convenience API.

use vstd::prelude::*;
use vstd::string::StringSliceAdditionalSpecFns;

pub mod detector;
pub mod formatters;
pub mod pipeline;
pub mod processors;
pub mod text;
pub mod token;
pub mod utils;

pub use detector::FormatType;
pub use processors::{LogProcessor, ProcessedOutput};
pub use utils::stats::ReductionStats;

verus! {

/// Output layout.
#[derive(Debug, Clone, Copy, PartialEq, Eq, Default, Structural)]
pub enum OutputFormat {
    /// Fenced code block with a short header.
    #[default]
    Markdown,
    /// XML tags that models parse reliably (`<context>`, `<error_summary>`).
    Xml,
    /// Processed lines, nothing added.
    Raw,
}

/// Which processor chain to run. `Auto` defers to [`detector`].
#[derive(Debug, Clone, Copy, PartialEq, Eq, Default, Structural)]
pub enum Preset {
    #[default]
    Auto,
    Pytest,
    Cargo,
    Diff,
    Docker,
    Json,
    Generic,
}

/// The format a preset pins the pipeline to, if any.
pub open spec fn preset_format(p: Preset) -> Option<FormatType> {
    match p {
        Preset::Auto => None,
        Preset::Pytest => Some(FormatType::Pytest),
        Preset::Cargo => Some(FormatType::CargoCheck),
        Preset::Diff => Some(FormatType::GitDiff),
        Preset::Docker => Some(FormatType::DockerLog),
        Preset::Json => Some(FormatType::JsonLines),
        Preset::Generic => Some(FormatType::GenericLog),
    }
}

impl Preset {
    /// The format a non-`Auto` preset pins the pipeline to.
    pub fn as_format(self) -> (f: Option<FormatType>)
        ensures
            f == preset_format(self),
    {
        match self {
            Preset::Auto => None,
            Preset::Pytest => Some(FormatType::Pytest),
            Preset::Cargo => Some(FormatType::CargoCheck),
            Preset::Diff => Some(FormatType::GitDiff),
            Preset::Docker => Some(FormatType::DockerLog),
            Preset::Json => Some(FormatType::JsonLines),
            Preset::Generic => Some(FormatType::GenericLog),
        }
    }
}

/// Everything the pipeline needs to build its processor chain.
#[derive(Debug, Clone)]
pub struct Config {
    pub preset: Preset,
    pub format: OutputFormat,
    /// Vendor frames preserved per folded stack-trace run.
    pub keep_frames: usize,
    /// Keep ANSI escape sequences instead of stripping them.
    pub preserve_ansi: bool,
    /// Run only the repeated-line compressor.
    pub dedupe_only: bool,
    /// Unified-diff context lines kept either side of a change run.
    ///
    /// One line is enough for a model to locate a change, and `git diff`
    /// already ships three, so the default removes two thirds of the context
    /// a normal diff carries.
    pub context_lines: usize,
    /// How many recent lines the deduplicator remembers.
    pub dedupe_window: usize,
    /// Fold lines that differ only in their numbers and ids.
    pub fuzzy_dedupe: bool,
}

impl Default for Config {
    fn default() -> (c: Self)
        ensures
            c.preset == Preset::Auto,
            c.format == OutputFormat::Markdown,
            c.keep_frames == 3,
            !c.preserve_ansi,
            !c.dedupe_only,
            c.context_lines == 1,
            c.dedupe_window == 64,
            c.fuzzy_dedupe,
    {
        Config {
            preset: Preset::Auto,
            format: OutputFormat::Markdown,
            keep_frames: 3,
            preserve_ansi: false,
            dedupe_only: false,
            context_lines: 1,
            dedupe_window: 64,
            fuzzy_dedupe: true,
        }
    }
}

/// Compress `input` in one shot: [`pipeline::run_str`].
///
/// Prefer [`pipeline::Session`] for large inputs: it never holds the whole
/// log in memory, which this function does by definition.
pub fn process(input: &str, config: &Config) -> (r: ProcessedOutput)
    ensures
        pipeline::processed_matches(r, *config, input.spec_bytes()),
{
    pipeline::run_str(input, config)
}

} // verus!
