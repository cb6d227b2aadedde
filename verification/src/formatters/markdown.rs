//! Fenced Markdown block plus an error summary when one was found.

use vstd::prelude::*;

use super::{begin_spec, end_spec, line_spec, Formatter, RenderContext};
use crate::text::{chars_of, lines_view, push_chars, push_line, push_str};
use crate::OutputFormat;

verus! {

pub struct MarkdownFormatter;

impl Formatter for MarkdownFormatter {
    fn begin(&mut self, out: &mut Vec<String>, ctx: &RenderContext)
        ensures
            lines_view(final(out)@) == lines_view(old(out)@) + begin_spec(
                OutputFormat::Markdown,
                ctx.format,
            ),
    {
        proof {
            reveal_strlit("```");
        }
        let mut v: Vec<char> = Vec::new();
        push_str(&mut v, "```");
        push_str(&mut v, ctx.format.fence_language());
        let ghost before = lines_view(out@);
        push_chars(out, &v);
        proof {
            assert(lines_view(out@) =~= before + begin_spec(OutputFormat::Markdown, ctx.format));
        }
    }

    fn line(&mut self, out: &mut Vec<String>, line: &str)
        ensures
            lines_view(final(out)@) == lines_view(old(out)@).push(
                line_spec(OutputFormat::Markdown, line@),
            ),
    {
        push_line(out, line);
    }

    fn end(&mut self, out: &mut Vec<String>, ctx: &RenderContext)
        ensures
            lines_view(final(out)@) == lines_view(old(out)@) + end_spec(
                OutputFormat::Markdown,
                lines_view(ctx.error_summary@),
            ),
    {
        proof {
            reveal_strlit("```");
            reveal_strlit("");
            reveal_strlit("**Errors**");
            reveal_strlit("- ");
        }
        let ghost start = lines_view(out@);
        let ghost summary = lines_view(ctx.error_summary@);
        push_line(out, "```");
        if ctx.error_summary.len() == 0 {
            proof {
                assert(lines_view(out@) =~= start + end_spec(OutputFormat::Markdown, summary));
            }
            return;
        }
        push_line(out, "");
        push_line(out, "**Errors**");
        let ghost mid = lines_view(out@);
        let ghost bullets = summary.map_values(|l: Seq<char>| "- "@ + l);
        let mut i: usize = 0;
        while i < ctx.error_summary.len()
            invariant
                i <= ctx.error_summary@.len(),
                summary == lines_view(ctx.error_summary@),
                bullets == summary.map_values(|l: Seq<char>| "- "@ + l),
                lines_view(out@) == mid + bullets.take(i as int),
            decreases ctx.error_summary@.len() - i,
        {
            let mut v: Vec<char> = Vec::new();
            push_str(&mut v, "- ");
            push_str(&mut v, ctx.error_summary[i].as_str());
            let ghost before = lines_view(out@);
            push_chars(out, &v);
            proof {
                assert(bullets.take(i + 1) =~= bullets.take(i as int).push(bullets[i as int]));
                assert(lines_view(out@) =~= mid + bullets.take(i + 1));
            }
            i = i + 1;
        }
        proof {
            assert(bullets.take(bullets.len() as int) =~= bullets);
            assert(lines_view(out@) =~= start + end_spec(OutputFormat::Markdown, summary));
        }
    }
}

} // verus!
