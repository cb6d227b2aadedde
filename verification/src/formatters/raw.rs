//! Processed lines, nothing added.

use vstd::prelude::*;

use super::{begin_spec, end_spec, line_spec, Formatter, RenderContext};
use crate::text::{lines_view, push_line};
use crate::OutputFormat;

verus! {

pub struct RawFormatter;

impl Formatter for RawFormatter {
    fn begin(&mut self, out: &mut Vec<String>, ctx: &RenderContext)
        ensures
            lines_view(final(out)@) == lines_view(old(out)@) + begin_spec(
                OutputFormat::Raw,
                ctx.format,
            ),
    {
        proof {
            assert(lines_view(out@) + Seq::<Seq<char>>::empty() =~= lines_view(out@));
        }
    }

    fn line(&mut self, out: &mut Vec<String>, line: &str)
        ensures
            lines_view(final(out)@) == lines_view(old(out)@).push(
                line_spec(OutputFormat::Raw, line@),
            ),
    {
        push_line(out, line);
    }

    fn end(&mut self, out: &mut Vec<String>, ctx: &RenderContext)
        ensures
            lines_view(final(out)@) == lines_view(old(out)@) + end_spec(
                OutputFormat::Raw,
                lines_view(ctx.error_summary@),
            ),
    {
        proof {
            assert(lines_view(out@) + Seq::<Seq<char>>::empty() =~= lines_view(out@));
        }
    }
}

} // verus!
