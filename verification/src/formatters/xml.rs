//! XML tags, the layout most models parse most reliably.

use vstd::prelude::*;

use super::{begin_spec, end_spec, line_spec, Formatter, RenderContext};
use crate::text::{at, chars_of, has_at, lines_view, push_chars, push_line, push_str, string_of};
use crate::OutputFormat;

verus! {

pub struct XmlFormatter;

/// `s` with every occurrence of `p` replaced by `r`, scanning left to right.
pub open spec fn replace_all(s: Seq<char>, p: Seq<char>, r: Seq<char>) -> Seq<char>
    recommends
        p.len() > 0,
    decreases s.len(),
{
    if s.len() == 0 || p.len() == 0 {
        s
    } else if has_at(s, 0, p) {
        r + replace_all(s.skip(p.len() as int), p, r)
    } else {
        seq![s[0]] + replace_all(s.skip(1), p, r)
    }
}

/// Content is not XML-escaped (escaping costs tokens and models read raw
/// text fine), but a literal closing tag would end the block early, so those
/// alone are defused.
pub open spec fn neutralize_spec(line: Seq<char>) -> Seq<char> {
    replace_all(
        replace_all(line, "</context>"@, "< /context>"@),
        "</error_summary>"@,
        "< /error_summary>"@,
    )
}

proof fn lemma_has_at_skip(s: Seq<char>, i: int, p: Seq<char>)
    requires
        0 <= i <= s.len(),
    ensures
        has_at(s, i, p) == has_at(s.skip(i), 0, p),
{
    if has_at(s, i, p) {
        assert(s.skip(i).subrange(0, p.len() as int) =~= s.subrange(i, i + p.len()));
    }
    if has_at(s.skip(i), 0, p) {
        assert(s.skip(i).subrange(0, p.len() as int) =~= s.subrange(i, i + p.len()));
    }
}

/// `q` opens with `<`, its second character differs from `r`'s, and
/// neither holds another `<`: how a closing tag and its defused form look.
pub open spec fn tag_shapes(q: Seq<char>, r: Seq<char>) -> bool {
    &&& q.len() >= 2
    &&& r.len() >= 2
    &&& q[0] == '<'
    &&& r[0] == '<'
    &&& q[1] != r[1]
    &&& forall|k: int| 1 <= k < q.len() ==> #[trigger] q[k] != '<'
    &&& forall|k: int| 1 <= k < r.len() ==> #[trigger] r[k] != '<'
}

/// No `<` in `w`.
pub open spec fn no_open(w: Seq<char>) -> bool {
    forall|k: int| 0 <= k < w.len() ==> #[trigger] w[k] != '<'
}

/// Text without `<` at the start of the output was there at the start of
/// the input: every replacement starts with `<`.
proof fn lemma_prefix_survives(x: Seq<char>, p: Seq<char>, r: Seq<char>, w: Seq<char>)
    requires
        p.len() > 0,
        r.len() > 0,
        r[0] == '<',
        no_open(w),
        has_at(replace_all(x, p, r), 0, w),
    ensures
        has_at(x, 0, w),
    decreases x.len(),
{
    let out = replace_all(x, p, r);
    if w.len() == 0 {
        assert(x.subrange(0, 0) =~= w);
    } else if x.len() == 0 {
    } else if has_at(x, 0, p) {
        assert(out =~= r + replace_all(x.skip(p.len() as int), p, r));
        assert(out[0] == r[0]);
        assert(out.subrange(0, w.len() as int)[0] == w[0]);
    } else {
        let t = replace_all(x.skip(1), p, r);
        assert(out =~= seq![x[0]] + t);
        assert(out.subrange(0, w.len() as int)[0] == w[0]);
        assert(out[0] == x[0]);
        assert(w =~= seq![w[0]] + w.skip(1));
        let w1 = w.skip(1);
        assert(t.subrange(0, w1.len() as int) =~= out.subrange(1, w.len() as int));
        assert(out.subrange(1, w.len() as int) =~= w1);
        lemma_prefix_survives(x.skip(1), p, r, w1);
        assert(x.subrange(0, w.len() as int) =~= seq![x[0]] + x.skip(1).subrange(
            0,
            w1.len() as int,
        ));
    }
}

/// Replacing `p` by `r` leaves no `q` behind, where every `q` of the input
/// was a `p`.
proof fn lemma_replace_leaves_no(x: Seq<char>, p: Seq<char>, r: Seq<char>, q: Seq<char>)
    requires
        p.len() > 0,
        tag_shapes(q, r),
        forall|i: int| #[trigger] has_at(x, i, q) ==> has_at(x, i, p),
    ensures
        forall|k: int| !#[trigger] has_at(replace_all(x, p, r), k, q),
    decreases x.len(),
{
    let out = replace_all(x, p, r);
    if x.len() == 0 {
        assert forall|k: int| !#[trigger] has_at(out, k, q) by {}
    } else if has_at(x, 0, p) {
        let y = x.skip(p.len() as int);
        assert forall|i: int| #[trigger] has_at(y, i, q) implies has_at(y, i, p) by {
            assert(y.subrange(i, i + q.len()) =~= x.subrange(i + p.len(), i + p.len() + q.len()));
            assert(has_at(x, i + p.len(), q));
            assert(y.subrange(i, i + p.len()) =~= x.subrange(i + p.len(), i + p.len() + p.len()));
        }
        lemma_replace_leaves_no(y, p, r, q);
        let t = replace_all(y, p, r);
        assert(out =~= r + t);
        assert forall|k: int| !#[trigger] has_at(out, k, q) by {
            if has_at(out, k, q) {
                if k >= r.len() {
                    assert(out.subrange(k, k + q.len()) =~= t.subrange(
                        k - r.len(),
                        k - r.len() + q.len(),
                    ));
                    assert(has_at(t, k - r.len(), q));
                } else {
                    assert(out.subrange(k, k + q.len())[0] == out[k]);
                    assert(out[k] == r[k]);
                    if k == 0 {
                        assert(out.subrange(k, k + q.len())[1] == out[1]);
                        assert(out[1] == r[1]);
                    }
                }
            }
        }
    } else {
        let y = x.skip(1);
        assert forall|i: int| #[trigger] has_at(y, i, q) implies has_at(y, i, p) by {
            assert(y.subrange(i, i + q.len()) =~= x.subrange(i + 1, i + 1 + q.len()));
            assert(has_at(x, i + 1, q));
            assert(y.subrange(i, i + p.len()) =~= x.subrange(i + 1, i + 1 + p.len()));
        }
        lemma_replace_leaves_no(y, p, r, q);
        let t = replace_all(y, p, r);
        assert(out =~= seq![x[0]] + t);
        assert forall|k: int| !#[trigger] has_at(out, k, q) by {
            if has_at(out, k, q) {
                if k >= 1 {
                    assert(out.subrange(k, k + q.len()) =~= t.subrange(k - 1, k - 1 + q.len()));
                    assert(has_at(t, k - 1, q));
                } else {
                    let w = q.skip(1);
                    assert(out.subrange(0, q.len() as int)[0] == q[0]);
                    assert(t.subrange(0, w.len() as int) =~= out.subrange(1, q.len() as int));
                    assert(out.subrange(1, q.len() as int) =~= w);
                    assert(no_open(w)) by {
                        assert forall|j: int| 0 <= j < w.len() implies #[trigger] w[j] != '<' by {
                            assert(w[j] == q[j + 1]);
                        }
                    }
                    lemma_prefix_survives(y, p, r, w);
                    assert(out[0] == x[0]);
                    assert(q =~= seq![q[0]] + w);
                    assert(x.subrange(0, q.len() as int) =~= seq![x[0]] + y.subrange(
                        0,
                        w.len() as int,
                    ));
                    assert(has_at(x, 0, q));
                }
            }
        }
    }
}

/// Neutralizing leaves no closing tag of this layout in the line, so content
/// can never end the `<context>` or `<error_summary>` block early.
pub proof fn lemma_neutralize_defuses(line: Seq<char>)
    ensures
        !crate::text::occurs(neutralize_spec(line), "</context>"@),
        !crate::text::occurs(neutralize_spec(line), "</error_summary>"@),
{
    reveal_strlit("</context>");
    reveal_strlit("< /context>");
    reveal_strlit("</error_summary>");
    reveal_strlit("< /error_summary>");
    let p1 = "</context>"@;
    let r1 = "< /context>"@;
    let p2 = "</error_summary>"@;
    let r2 = "< /error_summary>"@;
    assert(tag_shapes(p1, r1));
    assert(tag_shapes(p2, r2));
    assert(tag_shapes(p1, r2));
    let a = replace_all(line, p1, r1);
    lemma_replace_leaves_no(line, p1, r1, p1);
    assert forall|i: int| #[trigger] has_at(a, i, p2) implies has_at(a, i, p2) by {}
    lemma_replace_leaves_no(a, p2, r2, p2);
    assert forall|i: int| #[trigger] has_at(a, i, p1) implies has_at(a, i, p2) by {}
    lemma_replace_leaves_no(a, p2, r2, p1);
}

/// Replace every occurrence of `p` in `v` by `r`.
fn replace_in(v: &Vec<char>, p: &str, r: &str) -> (w: Vec<char>)
    requires
        p@.len() > 0,
    ensures
        w@ == replace_all(v@, p@, r@),
{
    let pv = chars_of(p);
    let ghost s = v@;
    let mut w: Vec<char> = Vec::new();
    let mut i: usize = 0;
    proof {
        assert(s.skip(0) =~= s);
        assert(w@ + replace_all(s.skip(0), p@, r@) =~= replace_all(s, p@, r@));
    }
    while i < v.len()
        invariant
            v@ == s,
            i <= s.len(),
            p@.len() > 0,
            pv@ == p@,
            w@ + replace_all(s.skip(i as int), p@, r@) == replace_all(s, p@, r@),
        decreases s.len() - i,
    {
        proof {
            lemma_has_at_skip(s, i as int, p@);
        }
        if at(v, i, p) {
            let ghost before = w@;
            push_str(&mut w, r);
            proof {
                let n = p@.len() as int;
                assert(s.skip(i as int).skip(n) =~= s.skip(i + n));
                assert(before + (r@ + replace_all(s.skip(i + n), p@, r@)) =~= w@ + replace_all(
                    s.skip(i + n),
                    p@,
                    r@,
                ));
            }
            i = i + pv.len();
        } else {
            let ghost before = w@;
            w.push(v[i]);
            proof {
                assert(s.skip(i as int).skip(1) =~= s.skip(i + 1));
                assert(s.skip(i as int)[0] == s[i as int]);
                assert(before + (seq![s[i as int]] + replace_all(s.skip(i + 1), p@, r@)) =~= w@
                    + replace_all(s.skip(i + 1), p@, r@));
            }
            i = i + 1;
        }
    }
    proof {
        assert(s.skip(i as int) =~= Seq::<char>::empty());
        assert(w@ + Seq::<char>::empty() =~= w@);
    }
    w
}

/// Defuse the closing tags of this layout in `line`.
pub fn neutralize(line: &str) -> (s: String)
    ensures
        s@ == neutralize_spec(line@),
{
    proof {
        reveal_strlit("</context>");
        reveal_strlit("</error_summary>");
    }
    let v = chars_of(line);
    let a = replace_in(&v, "</context>", "< /context>");
    let b = replace_in(&a, "</error_summary>", "< /error_summary>");
    string_of(b.as_slice())
}

impl Formatter for XmlFormatter {
    fn begin(&mut self, out: &mut Vec<String>, ctx: &RenderContext)
        ensures
            lines_view(final(out)@) == lines_view(old(out)@) + begin_spec(
                OutputFormat::Xml,
                ctx.format,
            ),
    {
        let mut v: Vec<char> = Vec::new();
        push_str(&mut v, "<context type=\"");
        push_str(&mut v, ctx.format.label());
        push_str(&mut v, "\">");
        let ghost before = lines_view(out@);
        push_chars(out, &v);
        proof {
            assert(lines_view(out@) =~= before + begin_spec(OutputFormat::Xml, ctx.format));
        }
    }

    fn line(&mut self, out: &mut Vec<String>, line: &str)
        ensures
            lines_view(final(out)@) == lines_view(old(out)@).push(
                line_spec(OutputFormat::Xml, line@),
            ),
    {
        let s = neutralize(line);
        push_line(out, s.as_str());
    }

    fn end(&mut self, out: &mut Vec<String>, ctx: &RenderContext)
        ensures
            lines_view(final(out)@) == lines_view(old(out)@) + end_spec(
                OutputFormat::Xml,
                lines_view(ctx.error_summary@),
            ),
    {
        let ghost start = lines_view(out@);
        let ghost summary = lines_view(ctx.error_summary@);
        push_line(out, "</context>");
        if ctx.error_summary.len() == 0 {
            proof {
                assert(lines_view(out@) =~= start + end_spec(OutputFormat::Xml, summary));
            }
            return;
        }
        push_line(out, "<error_summary>");
        let ghost mid = lines_view(out@);
        let ghost body = summary.map_values(|l: Seq<char>| neutralize_spec(l));
        let mut i: usize = 0;
        while i < ctx.error_summary.len()
            invariant
                i <= ctx.error_summary@.len(),
                summary == lines_view(ctx.error_summary@),
                body == summary.map_values(|l: Seq<char>| neutralize_spec(l)),
                lines_view(out@) == mid + body.take(i as int),
            decreases ctx.error_summary@.len() - i,
        {
            let s = neutralize(ctx.error_summary[i].as_str());
            let ghost before = lines_view(out@);
            push_line(out, s.as_str());
            proof {
                assert(body.take(i + 1) =~= body.take(i as int).push(body[i as int]));
                assert(lines_view(out@) =~= mid + body.take(i + 1));
            }
            i = i + 1;
        }
        push_line(out, "</error_summary>");
        proof {
            assert(body.take(body.len() as int) =~= body);
            assert(lines_view(out@) =~= start + end_spec(OutputFormat::Xml, summary));
        }
    }
}

} // verus!
