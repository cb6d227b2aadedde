//! Output rendering.
//!
//! Formatters are streaming: [`Formatter::begin`] runs once the input format
//! is known, [`Formatter::line`] per emitted line, [`Formatter::end`] after
//! the chain flushes, which is when the error summary is available. Each call
//! appends output lines; the text written is every line followed by a
//! newline.

use vstd::prelude::*;

pub mod markdown;
pub mod raw;
pub mod xml;

use crate::detector::{fence_language_spec, label_spec, FormatType};
use crate::text::lines_view;
use crate::OutputFormat;
use self::xml::neutralize_spec;

verus! {

/// What a formatter knows about the run.
pub struct RenderContext {
    pub format: FormatType,
    pub error_summary: Vec<String>,
}

pub trait Formatter {
    fn begin(&mut self, out: &mut Vec<String>, ctx: &RenderContext) {
    }

    fn line(&mut self, out: &mut Vec<String>, line: &str);

    fn end(&mut self, out: &mut Vec<String>, ctx: &RenderContext) {
    }
}

/// The lines a layout opens with.
pub open spec fn begin_spec(layout: OutputFormat, format: FormatType) -> Seq<Seq<char>> {
    match layout {
        OutputFormat::Markdown => seq!["```"@ + fence_language_spec(format)],
        OutputFormat::Xml => seq!["<context type=\""@ + label_spec(format) + "\">"@],
        OutputFormat::Raw => Seq::empty(),
    }
}

/// How a layout writes one content line.
pub open spec fn line_spec(layout: OutputFormat, line: Seq<char>) -> Seq<char> {
    match layout {
        OutputFormat::Xml => neutralize_spec(line),
        _ => line,
    }
}

/// The lines a layout closes with, given the error summary.
pub open spec fn end_spec(layout: OutputFormat, summary: Seq<Seq<char>>) -> Seq<Seq<char>> {
    match layout {
        OutputFormat::Markdown => seq!["```"@] + if summary.len() == 0 {
            Seq::empty()
        } else {
            seq![""@, "**Errors**"@] + summary.map_values(|l: Seq<char>| "- "@ + l)
        },
        OutputFormat::Xml => seq!["</context>"@] + if summary.len() == 0 {
            Seq::empty()
        } else {
            seq!["<error_summary>"@] + summary.map_values(|l: Seq<char>| neutralize_spec(l))
                + seq!["</error_summary>"@]
        },
        OutputFormat::Raw => Seq::empty(),
    }
}

/// Build the formatter for an [`OutputFormat`].
pub fn build(format: OutputFormat) -> Box<dyn Formatter> {
    match format {
        OutputFormat::Markdown => Box::new(markdown::MarkdownFormatter),
        OutputFormat::Xml => Box::new(xml::XmlFormatter),
        OutputFormat::Raw => Box::new(raw::RawFormatter),
    }
}

/// Append the opening lines of `layout`.
pub fn render_begin(layout: OutputFormat, out: &mut Vec<String>, ctx: &RenderContext)
    ensures
        lines_view(final(out)@) == lines_view(old(out)@) + begin_spec(layout, ctx.format),
{
    match layout {
        OutputFormat::Markdown => markdown::MarkdownFormatter.begin(out, ctx),
        OutputFormat::Xml => xml::XmlFormatter.begin(out, ctx),
        OutputFormat::Raw => raw::RawFormatter.begin(out, ctx),
    }
}

/// Append one content line as `layout` writes it.
pub fn render_line(layout: OutputFormat, out: &mut Vec<String>, line: &str)
    ensures
        lines_view(final(out)@) == lines_view(old(out)@).push(line_spec(layout, line@)),
{
    match layout {
        OutputFormat::Markdown => markdown::MarkdownFormatter.line(out, line),
        OutputFormat::Xml => xml::XmlFormatter.line(out, line),
        OutputFormat::Raw => raw::RawFormatter.line(out, line),
    }
}

/// Append the closing lines of `layout`.
pub fn render_end(layout: OutputFormat, out: &mut Vec<String>, ctx: &RenderContext)
    ensures
        lines_view(final(out)@) == lines_view(old(out)@) + end_spec(
            layout,
            lines_view(ctx.error_summary@),
        ),
{
    match layout {
        OutputFormat::Markdown => markdown::MarkdownFormatter.end(out, ctx),
        OutputFormat::Xml => xml::XmlFormatter.end(out, ctx),
        OutputFormat::Raw => raw::RawFormatter.end(out, ctx),
    }
}

} // verus!
