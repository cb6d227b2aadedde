//! ANSI escape sequence removal and carriage-return collapsing.

use vstd::prelude::*;

use crate::text::{
    all_space, chars_of, is_space, lines_view, space, span, span_end, string_of, CharKind,
};

verus! {

pub const ESC: char = '\u{1b}';

pub const BEL: char = '\u{7}';

pub const BS: char = '\u{8}';

/// Length of the escape sequence that starts at `s[i]`, 0 when none does.
///
/// The sequences, tried in this order:
/// * CSI: `ESC [`, parameter bytes `0x30..=0x3F`, intermediate bytes
///   `0x20..=0x2F`, a final byte `@..=~`;
/// * OSC: `ESC ]`, text without BEL or ESC, ended by BEL or `ESC \`;
/// * DCS, SOS, PM, APC: `ESC` and one of `P X ^ _`, text without ESC, and
///   an optional `ESC \`;
/// * charset selection: `ESC (` or `ESC )` and a letter or digit;
/// * the other two-character escapes `ESC @..=Z` and `ESC \..=_`.
pub open spec fn escape_len(s: Seq<char>, i: int) -> nat {
    if !(0 <= i && i + 1 < s.len() && s[i] == ESC) {
        0
    } else {
        let c = s[i + 1];
        if c == '[' {
            let p = i + 2 + span(s, i + 2, CharKind::Range('0', '?'));
            let q = p + span(s, p, CharKind::Range(' ', '/'));
            if q < s.len() && '@' <= s[q] && s[q] <= '~' {
                (q + 1 - i) as nat
            } else {
                0
            }
        } else if c == ']' {
            let p = i + 2 + span(s, i + 2, CharKind::NotEither(BEL, ESC));
            if p < s.len() && s[p] == BEL {
                (p + 1 - i) as nat
            } else if p + 1 < s.len() && s[p] == ESC && s[p + 1] == '\\' {
                (p + 2 - i) as nat
            } else {
                // `ESC ]` alone is still a two-character escape.
                2
            }
        } else if c == 'P' || c == 'X' || c == '^' || c == '_' {
            let p = i + 2 + span(s, i + 2, CharKind::Not(ESC));
            if p + 1 < s.len() && s[p + 1] == '\\' {
                (p + 2 - i) as nat
            } else {
                (p - i) as nat
            }
        } else if c == '(' || c == ')' {
            if i + 2 < s.len() && (crate::text::is_ascii_alpha(s[i + 2])
                || crate::text::is_ascii_digit(s[i + 2])) {
                3
            } else {
                0
            }
        } else if ('@' <= c && c <= 'Z') || ('\\' <= c && c <= '_') {
            2
        } else {
            0
        }
    }
}

/// `s[i..]` with every escape sequence removed, scanning left to right.
pub open spec fn strip_from(s: Seq<char>, i: int) -> Seq<char>
    decreases s.len() - i,
{
    if i < 0 || i >= s.len() {
        Seq::empty()
    } else if escape_len(s, i) > 0 {
        proof {
            lemma_escape_len_bound(s, i);
        }
        strip_from(s, i + escape_len(s, i))
    } else {
        seq![s[i]] + strip_from(s, i + 1)
    }
}

pub proof fn lemma_escape_len_bound(s: Seq<char>, i: int)
    ensures
        i + escape_len(s, i) <= s.len() || escape_len(s, i) == 0,
{
    if 0 <= i && i + 1 < s.len() && s[i] == ESC {
        crate::text::lemma_span_facts(s, i + 2, CharKind::Range('0', '?'));
        let p = i + 2 + span(s, i + 2, CharKind::Range('0', '?'));
        crate::text::lemma_span_facts(s, p, CharKind::Range(' ', '/'));
        crate::text::lemma_span_facts(s, i + 2, CharKind::NotEither(BEL, ESC));
        crate::text::lemma_span_facts(s, i + 2, CharKind::Not(ESC));
    }
}

/// A control sequence `ESC [`, parameter bytes `0x30..=0x3F` up to `p`,
/// intermediate bytes `0x20..=0x2F` up to `q`, and the final byte
/// `@..=~` at `q`.
pub open spec fn csi_at(s: Seq<char>, i: int, p: int, q: int) -> bool {
    &&& 0 <= i
    &&& i + 2 <= p <= q < s.len()
    &&& s[i] == ESC
    &&& s[i + 1] == '['
    &&& forall|t: int| i + 2 <= t < p ==> '\u{30}' <= #[trigger] s[t] <= '\u{3f}'
    &&& forall|t: int| p <= t < q ==> '\u{20}' <= #[trigger] s[t] <= '\u{2f}'
    &&& '@' <= s[q] <= '~'
}

/// Every control sequence is removed whole, private-mode ones (`ESC [ ? 25 l`)
/// included: stripping from where one starts gives what stripping from just
/// past its final byte gives.
pub proof fn lemma_control_sequences_vanish(s: Seq<char>, i: int, p: int, q: int)
    requires
        csi_at(s, i, p, q),
    ensures
        strip_from(s, i) == strip_from(s, q + 1),
{
    crate::text::lemma_span(s, i + 2, p, CharKind::Range('0', '?'));
    crate::text::lemma_span(s, p, q, CharKind::Range(' ', '/'));
    assert(escape_len(s, i) == q + 1 - i);
}

/// Backspaces applied the way a terminal would: each erases the character
/// before it, if any.
pub open spec fn apply_backspaces(s: Seq<char>) -> Seq<char>
    decreases s.len(),
{
    if s.len() == 0 {
        Seq::empty()
    } else {
        let p = apply_backspaces(s.drop_last());
        if s.last() == BS {
            if p.len() > 0 {
                p.drop_last()
            } else {
                p
            }
        } else {
            p.push(s.last())
        }
    }
}

/// The last index of `c` in `s`.
pub open spec fn last_index_of(s: Seq<char>, c: char) -> Option<int>
    decreases s.len(),
{
    if s.len() == 0 {
        None
    } else if s.last() == c {
        Some(s.len() - 1)
    } else {
        last_index_of(s.drop_last(), c)
    }
}

/// The last carriage-return frame that has content: everything after the
/// final carriage return, unless that is blank; then the same rule on what
/// comes before it. A line whose frames are all blank keeps its first one.
pub open spec fn last_cr_segment(s: Seq<char>) -> Seq<char>
    decreases s.len(),
{
    match last_index_of(s, '\r') {
        None => s,
        Some(i) => if 0 <= i < s.len() && all_space(s.skip(i + 1)) {
            last_cr_segment(s.take(i))
        } else {
            s.skip(i + 1)
        },
    }
}

/// What [`AnsiStripper::clean`] makes of a line.
pub open spec fn clean_spec(collapse_cr: bool, line: Seq<char>) -> Seq<char> {
    let t = if collapse_cr {
        last_cr_segment(line)
    } else {
        line
    };
    apply_backspaces(strip_from(t, 0))
}

pub proof fn lemma_last_index_of(s: Seq<char>, c: char)
    ensures
        last_index_of(s, c) matches Some(i) ==> 0 <= i < s.len() && s[i] == c && forall|
            j: int,
        |
            i < j < s.len() ==> s[j] != c,
        last_index_of(s, c) is None ==> forall|j: int| 0 <= j < s.len() ==> s[j] != c,
    decreases s.len(),
{
    if s.len() > 0 && s.last() != c {
        let t = s.drop_last();
        lemma_last_index_of(t, c);
        if last_index_of(t, c) is Some {
            let i = last_index_of(t, c)->0;
            assert(s[i] == t[i]);
            assert forall|j: int| i < j < s.len() implies s[j] != c by {
                if j < s.len() - 1 {
                    assert(s[j] == t[j]);
                }
            }
        } else {
            assert forall|j: int| 0 <= j < s.len() implies s[j] != c by {
                if j < s.len() - 1 {
                    assert(s[j] == t[j]);
                }
            }
        }
    }
}

proof fn lemma_strip_no_escape(s: Seq<char>, i: int)
    requires
        0 <= i <= s.len(),
        forall|j: int| i <= j < s.len() ==> s[j] != ESC,
    ensures
        strip_from(s, i) == s.skip(i),
    decreases s.len() - i,
{
    if i < s.len() {
        lemma_strip_no_escape(s, i + 1);
        assert(s.skip(i) =~= seq![s[i]] + s.skip(i + 1));
    } else {
        assert(s.skip(i) =~= Seq::<char>::empty());
    }
}

proof fn lemma_backspaces_none(s: Seq<char>)
    requires
        forall|j: int| 0 <= j < s.len() ==> s[j] != BS,
    ensures
        apply_backspaces(s) == s,
    decreases s.len(),
{
    if s.len() > 0 {
        lemma_backspaces_none(s.drop_last());
        assert(s.drop_last().push(s.last()) =~= s);
    }
}

fn last_index(v: &Vec<char>, end: usize, c: char) -> (r: Option<usize>)
    requires
        end <= v@.len(),
    ensures
        match r {
            Some(i) => last_index_of(v@.take(end as int), c) == Some(i as int),
            None => last_index_of(v@.take(end as int), c) is None,
        },
{
    let mut n = end;
    while n > 0
        invariant
            n <= end <= v@.len(),
            last_index_of(v@.take(end as int), c) == last_index_of(v@.take(n as int), c),
        decreases n,
    {
        proof {
            assert(v@.take(n as int).drop_last() =~= v@.take(n - 1));
            assert(v@.take(n as int).last() == v@[n - 1]);
        }
        if v[n - 1] == c {
            return Some(n - 1);
        }
        n = n - 1;
    }
    None
}

/// Whether `v[i..end]` holds only space characters.
fn blank_between(v: &Vec<char>, i: usize, end: usize) -> (b: bool)
    requires
        i <= end <= v@.len(),
    ensures
        b == all_space(v@.subrange(i as int, end as int)),
{
    let mut j = i;
    while j < end
        invariant
            i <= j <= end <= v@.len(),
            forall|k: int| i <= k < j ==> is_space(#[trigger] v@[k]),
        decreases end - j,
    {
        if !space(v[j]) {
            proof {
                assert(v@.subrange(i as int, end as int)[j - i] == v@[j as int]);
            }
            return false;
        }
        j = j + 1;
    }
    proof {
        assert forall|k: int| 0 <= k < v@.subrange(i as int, end as int).len() implies is_space(
            #[trigger] v@.subrange(i as int, end as int)[k],
        ) by {
            assert(v@.subrange(i as int, end as int)[k] == v@[i + k]);
        }
    }
    true
}

/// The bounds of [`last_cr_segment`] within `v`.
fn cr_segment(v: &Vec<char>) -> (r: (usize, usize))
    ensures
        r.0 <= r.1 <= v@.len(),
        v@.subrange(r.0 as int, r.1 as int) == last_cr_segment(v@),
{
    let mut end = v.len();
    proof {
        assert(v@.take(end as int) =~= v@);
    }
    loop
        invariant
            end <= v@.len(),
            last_cr_segment(v@.take(end as int)) == last_cr_segment(v@),
        decreases end,
    {
        let ghost t = v@.take(end as int);
        match last_index(v, end, '\r') {
            None => {
                proof {
                    assert(v@.subrange(0, end as int) =~= t);
                }
                return (0, end);
            },
            Some(i) => {
                proof {
                    lemma_last_index_of(t, '\r');
                    assert(t.skip(i + 1) =~= v@.subrange(i + 1, end as int));
                }
                if blank_between(v, i + 1, end) {
                    proof {
                        assert(t.take(i as int) =~= v@.take(i as int));
                    }
                    end = i;
                } else {
                    return (i + 1, end);
                }
            },
        }
    }
}

fn in_range(c: char, lo: char, hi: char) -> (b: bool)
    ensures
        b == (lo <= c && c <= hi),
{
    lo <= c && c <= hi
}

/// [`escape_len`] at `i`.
fn escape_at(v: &Vec<char>, i: usize) -> (n: usize)
    requires
        i <= v@.len(),
    ensures
        n == escape_len(v@, i as int),
        n == 0 || i + n <= v@.len(),
{
    proof {
        lemma_escape_len_bound(v@, i as int);
    }
    if !(i < v.len() && v.len() - i > 1 && v[i] == ESC) {
        return 0;
    }
    let c = v[i + 1];
    if c == '[' {
        let p = span_end(v, i + 2, CharKind::Range('0', '?'));
        let q = span_end(v, p, CharKind::Range(' ', '/'));
        if q < v.len() && in_range(v[q], '@', '~') {
            q + 1 - i
        } else {
            0
        }
    } else if c == ']' {
        let p = span_end(v, i + 2, CharKind::NotEither(BEL, ESC));
        if p < v.len() && v[p] == BEL {
            p + 1 - i
        } else if p < v.len() && v.len() - p > 1 && v[p] == ESC && v[p + 1] == '\\' {
            p + 2 - i
        } else {
            2
        }
    } else if c == 'P' || c == 'X' || c == '^' || c == '_' {
        let p = span_end(v, i + 2, CharKind::Not(ESC));
        if p < v.len() && v.len() - p > 1 && v[p + 1] == '\\' {
            p + 2 - i
        } else {
            p - i
        }
    } else if c == '(' || c == ')' {
        if i + 2 < v.len() && (crate::text::ascii_word(v[i + 2]) && v[i + 2] != '_') {
            3
        } else {
            0
        }
    } else if in_range(c, '@', 'Z') || in_range(c, '\\', '_') {
        2
    } else {
        0
    }
}

/// Strips ANSI sequences and collapses `\r`-overwritten progress output.
///
/// A progress bar writes many frames separated by carriage returns; a
/// terminal shows only the last one, so that is what survives here.
#[derive(Debug, Default)]
pub struct AnsiStripper {
    collapse_cr: bool,
}

impl AnsiStripper {
    /// Whether carriage-return frames are collapsed.
    pub closed spec fn spec_collapse_cr(&self) -> bool {
        self.collapse_cr
    }

    pub fn new() -> (a: Self)
        ensures
            a.spec_collapse_cr(),
    {
        AnsiStripper { collapse_cr: true }
    }

    /// Clean a single line: the last carriage-return frame, escape sequences
    /// removed, backspaces applied. A line with nothing to do comes back
    /// unchanged.
    pub fn clean(&self, line: &str) -> (r: String)
        ensures
            r@ == clean_spec(self.spec_collapse_cr(), line@),
    {
        let v = chars_of(line);
        let (a, b) = if self.collapse_cr {
            cr_segment(&v)
        } else {
            proof {
                assert(v@.subrange(0, v@.len() as int) =~= v@);
            }
            (0, v.len())
        };
        let mut t: Vec<char> = Vec::new();
        crate::text::push_range(&mut t, &v, a, b);
        let ghost ts = t@;
        // Strip escape sequences.
        let mut stripped: Vec<char> = Vec::new();
        let mut i: usize = 0;
        proof {
            assert(stripped@ + strip_from(ts, 0) =~= strip_from(ts, 0));
        }
        while i < t.len()
            invariant
                t@ == ts,
                i <= ts.len(),
                strip_from(ts, 0) == stripped@ + strip_from(ts, i as int),
            decreases ts.len() - i,
        {
            let n = escape_at(&t, i);
            if n > 0 {
                i = i + n;
            } else {
                let ghost before = stripped@;
                stripped.push(t[i]);
                proof {
                    assert(stripped@ + strip_from(ts, i + 1) =~= before + (seq![ts[i as int]]
                        + strip_from(ts, i + 1)));
                }
                i = i + 1;
            }
        }
        // Apply backspaces.
        let ghost ss = stripped@;
        let mut out: Vec<char> = Vec::new();
        let mut k: usize = 0;
        proof {
            assert(ss.take(0) =~= Seq::<char>::empty());
        }
        while k < stripped.len()
            invariant
                stripped@ == ss,
                k <= ss.len(),
                out@ == apply_backspaces(ss.take(k as int)),
            decreases ss.len() - k,
        {
            proof {
                assert(ss.take(k + 1).drop_last() =~= ss.take(k as int));
                assert(ss.take(k + 1).last() == ss[k as int]);
            }
            if stripped[k] == BS {
                if out.len() > 0 {
                    out.pop();
                    proof {
                        assert(out@ =~= apply_backspaces(ss.take(k as int)).drop_last());
                    }
                }
            } else {
                out.push(stripped[k]);
            }
            k = k + 1;
        }
        proof {
            assert(ss.take(ss.len() as int) =~= ss);
            assert(strip_from(ts, i as int) =~= Seq::<char>::empty());
            assert(stripped@ + Seq::<char>::empty() =~= stripped@);
        }
        string_of(out.as_slice())
    }
}

impl crate::processors::LineProcessor for AnsiStripper {
    fn on_line(&mut self, line: &str, out: &mut Vec<String>)
        ensures
            *final(self) == *old(self),
            lines_view(final(out)@) == lines_view(old(out)@).push(
                clean_spec(old(self).spec_collapse_cr(), line@),
            ),
    {
        let c = self.clean(line);
        let ghost before = lines_view(out@);
        out.push(c);
        proof {
            assert(lines_view(out@) =~= before.push(c@));
        }
    }

    fn name(&self) -> (n: &'static str)
        ensures
            n@ == "ansi"@,
    {
        "ansi"
    }
}

} // verus!
