//! Reduction accounting and the one-line report.

use vstd::prelude::*;

use crate::detector::{label_spec, FormatType};
use crate::text::{decimal, push_decimal, push_range, push_str, push_wide_decimal, string_of};
use crate::token::{approx_marker, is_exact_spec};

verus! {

/// Before/after sizes for one run.
#[derive(Debug, Clone, Default, PartialEq, Eq, Structural)]
pub struct ReductionStats {
    pub raw_bytes: usize,
    pub reduced_bytes: usize,
    pub raw_tokens: usize,
    pub reduced_tokens: usize,
    pub raw_lines: usize,
    pub reduced_lines: usize,
}

/// Digits grouped in threes from the right, separated by commas.
pub open spec fn group_digits(d: Seq<char>) -> Seq<char>
    decreases d.len(),
{
    if d.len() <= 3 {
        d
    } else {
        group_digits(d.subrange(0, d.len() - 3)) + seq![','] + d.subrange(
            d.len() - 3,
            d.len() as int,
        )
    }
}

/// `s` without its commas.
pub open spec fn drop_commas(s: Seq<char>) -> Seq<char>
    decreases s.len(),
{
    if s.len() == 0 {
        s
    } else if s.last() == ',' {
        drop_commas(s.drop_last())
    } else {
        drop_commas(s.drop_last()).push(s.last())
    }
}

proof fn lemma_drop_commas_add(a: Seq<char>, b: Seq<char>)
    ensures
        drop_commas(a + b) == drop_commas(a) + drop_commas(b),
    decreases b.len(),
{
    if b.len() == 0 {
        assert(a + b =~= a);
        assert(drop_commas(a) + drop_commas(b) =~= drop_commas(a));
    } else {
        lemma_drop_commas_add(a, b.drop_last());
        assert((a + b).drop_last() =~= a + b.drop_last());
        assert((a + b).last() == b.last());
        if b.last() != ',' {
            assert(drop_commas(a) + drop_commas(b.drop_last()).push(b.last()) =~= (drop_commas(a)
                + drop_commas(b.drop_last())).push(b.last()));
        }
    }
}

proof fn lemma_drop_commas_none(s: Seq<char>)
    requires
        forall|i: int| 0 <= i < s.len() ==> #[trigger] s[i] != ',',
    ensures
        drop_commas(s) == s,
    decreases s.len(),
{
    if s.len() > 0 {
        lemma_drop_commas_none(s.drop_last());
        assert(s.drop_last().push(s.last()) =~= s);
    }
}

proof fn lemma_group_digits(d: Seq<char>)
    requires
        forall|i: int| 0 <= i < d.len() ==> #[trigger] d[i] != ',',
    ensures
        drop_commas(group_digits(d)) == d,
    decreases d.len(),
{
    if d.len() <= 3 {
        lemma_drop_commas_none(d);
    } else {
        let hi = d.subrange(0, d.len() - 3);
        let lo = d.subrange(d.len() - 3, d.len() as int);
        assert forall|i: int| 0 <= i < hi.len() implies #[trigger] hi[i] != ',' by {
            assert(hi[i] == d[i]);
        }
        assert forall|i: int| 0 <= i < lo.len() implies #[trigger] lo[i] != ',' by {
            assert(lo[i] == d[d.len() - 3 + i]);
        }
        lemma_group_digits(hi);
        lemma_drop_commas_none(lo);
        lemma_drop_commas_add(group_digits(hi) + seq![','], lo);
        lemma_drop_commas_add(group_digits(hi), seq![',']);
        assert(seq![','].drop_last() =~= Seq::<char>::empty());
        assert(drop_commas(seq![',']) == drop_commas(Seq::<char>::empty()));
        assert(hi + lo =~= d);
        assert(drop_commas(group_digits(hi)) + Seq::<char>::empty() =~= hi);
    }
}

/// Comma-separated groups: the first holds one to three characters, every
/// later one exactly three.
pub open spec fn grouped_in_threes(t: Seq<char>) -> bool {
    &&& t.len() >= 1
    &&& t[0] != ','
    &&& forall|i: int|
        0 <= i < t.len() && #[trigger] t[i] == ',' ==> i + 3 < t.len() && t[i + 1] != ','
            && t[i + 2] != ',' && t[i + 3] != ',' && (i + 4 == t.len() || t[i + 4] == ',')
    &&& t.len() > 3 ==> (t[1] == ',' || t[2] == ',' || t[3] == ',')
}

proof fn lemma_group_digits_shape(d: Seq<char>)
    requires
        d.len() >= 1,
        forall|i: int| 0 <= i < d.len() ==> #[trigger] d[i] != ',',
    ensures
        grouped_in_threes(group_digits(d)),
    decreases d.len(),
{
    if d.len() > 3 {
        let hi = d.subrange(0, d.len() - 3);
        let lo = d.subrange(d.len() - 3, d.len() as int);
        assert forall|i: int| 0 <= i < hi.len() implies #[trigger] hi[i] != ',' by {
            assert(hi[i] == d[i]);
        }
        lemma_group_digits_shape(hi);
        let g = group_digits(hi);
        let t = group_digits(d);
        let l = g.len() as int;
        assert(t == g + seq![','] + lo);
        assert forall|i: int| 0 <= i < t.len() && #[trigger] t[i] == ',' implies i + 3 < t.len()
            && t[i + 1] != ',' && t[i + 2] != ',' && t[i + 3] != ',' && (i + 4 == t.len() || t[i
            + 4] == ',') by {
            assert(lo[0] == d[d.len() - 3]);
            assert(lo[1] == d[d.len() - 2]);
            assert(lo[2] == d[d.len() - 1]);
            if i < l {
                assert(t[i] == g[i]);
                assert(g[i] == ',');
                if i + 4 == l {
                    assert(t[i + 4] == ',');
                } else {
                    assert(t[i + 4] == g[i + 4]);
                }
                assert(t[i + 1] == g[i + 1]);
                assert(t[i + 2] == g[i + 2]);
                assert(t[i + 3] == g[i + 3]);
            } else if i > l {
                assert(t[i] == lo[i - l - 1]);
            } else {
                assert(t[i + 1] == lo[0]);
                assert(t[i + 2] == lo[1]);
                assert(t[i + 3] == lo[2]);
            }
        }
        assert(t[0] == g[0]);
        if l > 3 {
            assert(t[1] == g[1]);
            assert(t[2] == g[2]);
            assert(t[3] == g[3]);
        } else {
            assert(t[l] == ',');
        }
    }
}

/// `thousands` groups the digits in threes from the right: the first group
/// holds one to three digits, every later one exactly three.
pub proof fn lemma_thousands_in_threes(n: nat)
    ensures
        grouped_in_threes(thousands_spec(n)),
{
    crate::processors::dedupe::lemma_decimal_digits(n);
    assert forall|i: int| 0 <= i < decimal(n).len() implies #[trigger] decimal(n)[i] != ',' by {
        assert('0' <= decimal(n)[i] <= '9');
    }
    lemma_group_digits_shape(decimal(n));
}

/// The separators are all `thousands` adds: without its commas, the text is
/// the plain decimal.
pub proof fn lemma_thousands_is_decimal(n: nat)
    ensures
        drop_commas(thousands_spec(n)) == decimal(n),
{
    crate::processors::dedupe::lemma_decimal_digits(n);
    assert forall|i: int| 0 <= i < decimal(n).len() implies #[trigger] decimal(n)[i] != ',' by {
        assert('0' <= decimal(n)[i] <= '9');
    }
    lemma_group_digits(decimal(n));
}

/// `14200` -> `14,200`
pub open spec fn thousands_spec(n: nat) -> Seq<char> {
    group_digits(decimal(n))
}

/// `num / den` rounded to the nearest integer, a tie to the even one.
pub open spec fn round_half_even(num: nat, den: nat) -> nat
    recommends
        den > 0,
{
    let q = num / den;
    let r = num % den;
    if 2 * r > den || (2 * r == den && q % 2 == 1) {
        q + 1
    } else {
        q
    }
}

/// The share of `raw` that `reduced` saves, in percent with one decimal
/// (`84.9`); negative when the output grew; `0.0` for an empty input.
///
/// The exact ratio is rounded, a tie to the even tenth. A computation in
/// binary floating point rounds its own approximation of the ratio instead,
/// which at an exact tie can land either side: 1 token saved of 2000 is
/// `0.0` here, where such a computation prints `0.1`.
pub open spec fn percent_text(raw: nat, reduced: nat) -> Seq<char> {
    if raw == 0 {
        "0.0"@
    } else {
        let grew = reduced > raw;
        let diff: nat = if grew {
            (reduced - raw) as nat
        } else {
            (raw - reduced) as nat
        };
        let tenths = round_half_even(1000 * diff, raw);
        (if grew {
            "-"@
        } else {
            ""@
        }) + decimal(tenths / 10) + "."@ + decimal(tenths % 10)
    }
}

/// `[ctrim] pytest: ~14,200 -> ~2,150 tokens (-84.9%) | 310 -> 42 lines`,
/// with ` | copied to clipboard` when the output went there.
pub open spec fn report_spec(st: ReductionStats, format: FormatType, clipboard: bool) -> Seq<
    char,
> {
    let m = if is_exact_spec() {
        ""@
    } else {
        "~"@
    };
    "[ctrim] "@ + label_spec(format) + ": "@ + m + thousands_spec(st.raw_tokens as nat) + " -> "@
        + m + thousands_spec(st.reduced_tokens as nat) + " tokens (-"@ + percent_text(
        st.raw_tokens as nat,
        st.reduced_tokens as nat,
    ) + "%)"@ + " | "@ + thousands_spec(st.raw_lines as nat) + " -> "@ + thousands_spec(
        st.reduced_lines as nat,
    ) + " lines"@ + if clipboard {
        " | copied to clipboard"@
    } else {
        ""@
    }
}

proof fn lemma_decimal_nonempty(n: nat)
    ensures
        decimal(n).len() >= 1,
    decreases n,
{
    if n >= 10 {
        lemma_decimal_nonempty(n / 10);
    }
}

/// Appends `value` with thousands separators.
fn push_thousands(out: &mut Vec<char>, value: usize)
    ensures
        final(out)@ == old(out)@ + thousands_spec(value as nat),
{
    let mut d: Vec<char> = Vec::new();
    push_decimal(&mut d, value);
    proof {
        lemma_decimal_nonempty(value as nat);
        assert(d@ =~= decimal(value as nat));
    }
    let n = d.len();
    let f = (n - 1) % 3 + 1;
    let ghost start = out@;
    push_range(out, &d, 0, f);
    proof {
        assert(d@.subrange(0, f as int) =~= d@.take(f as int));
    }
    let mut i = f;
    while i < n
        invariant
            d@.len() == n,
            1 <= f <= i <= n,
            (n - i) % 3 == 0,
            out@ == start + group_digits(d@.take(i as int)),
        decreases n - i,
    {
        let ghost before = out@;
        out.push(',');
        push_range(out, &d, i, i + 3);
        proof {
            let t = d@.take(i + 3);
            assert(t.subrange(0, t.len() - 3) =~= d@.take(i as int));
            assert(t.subrange(t.len() - 3, t.len() as int) =~= d@.subrange(i as int, i + 3));
            assert(out@ =~= start + (group_digits(d@.take(i as int)) + seq![','] + d@.subrange(
                i as int,
                i + 3,
            )));
        }
        i = i + 3;
    }
    proof {
        assert(d@.take(n as int) =~= d@);
    }
}

/// `14200` -> `14,200`
pub fn thousands(value: usize) -> (s: String)
    ensures
        s@ == thousands_spec(value as nat),
{
    let mut out: Vec<char> = Vec::new();
    push_thousands(&mut out, value);
    proof {
        assert(out@ =~= thousands_spec(value as nat));
    }
    string_of(out.as_slice())
}

/// Appends [`percent_text`].
fn push_percent(out: &mut Vec<char>, raw: usize, reduced: usize)
    ensures
        final(out)@ == old(out)@ + percent_text(raw as nat, reduced as nat),
{
    proof {
        reveal_strlit("0.0");
        reveal_strlit("-");
        reveal_strlit("");
        reveal_strlit(".");
    }
    let ghost start = out@;
    if raw == 0 {
        push_str(out, "0.0");
        return;
    }
    let grew = reduced > raw;
    let diff: u128 = if grew {
        (reduced - raw) as u128
    } else {
        (raw - reduced) as u128
    };
    let den = raw as u128;
    let num = diff * 1000;
    let q = num / den;
    let r = num % den;
    let tenths = if 2 * r > den || (2 * r == den && q % 2 == 1) {
        q + 1
    } else {
        q
    };
    proof {
        assert(tenths == round_half_even(1000 * diff as nat, raw as nat));
    }
    if grew {
        push_str(out, "-");
    } else {
        push_str(out, "");
    }
    push_wide_decimal(out, tenths / 10);
    push_str(out, ".");
    push_wide_decimal(out, tenths % 10);
    proof {
        assert(out@ =~= start + percent_text(raw as nat, reduced as nat));
    }
}

impl ReductionStats {
    /// The percentage of tokens removed, with one decimal: see
    /// [`percent_text`]. Zero-input runs report `0.0`.
    pub fn reduction_text(&self) -> (s: String)
        ensures
            s@ == percent_text(self.raw_tokens as nat, self.reduced_tokens as nat),
    {
        let mut out: Vec<char> = Vec::new();
        push_percent(&mut out, self.raw_tokens, self.reduced_tokens);
        proof {
            assert(out@ =~= percent_text(self.raw_tokens as nat, self.reduced_tokens as nat));
        }
        string_of(out.as_slice())
    }

    /// `[ctrim] pytest: ~14,200 -> ~2,150 tokens (-84.9%) | 310 -> 42 lines`
    pub fn report(&self, format: FormatType, clipboard: bool) -> (s: String)
        ensures
            s@ == report_spec(*self, format, clipboard),
    {
        proof {
            reveal_strlit("[ctrim] ");
            reveal_strlit(": ");
            reveal_strlit(" -> ");
            reveal_strlit(" tokens (-");
            reveal_strlit("%)");
            reveal_strlit(" | ");
            reveal_strlit(" lines");
            reveal_strlit(" | copied to clipboard");
            reveal_strlit("");
            reveal_strlit("~");
        }
        let marker = approx_marker();
        let mut out: Vec<char> = Vec::new();
        push_str(&mut out, "[ctrim] ");
        push_str(&mut out, format.label());
        push_str(&mut out, ": ");
        push_str(&mut out, marker);
        push_thousands(&mut out, self.raw_tokens);
        push_str(&mut out, " -> ");
        push_str(&mut out, marker);
        push_thousands(&mut out, self.reduced_tokens);
        push_str(&mut out, " tokens (-");
        push_percent(&mut out, self.raw_tokens, self.reduced_tokens);
        push_str(&mut out, "%)");
        push_str(&mut out, " | ");
        push_thousands(&mut out, self.raw_lines);
        push_str(&mut out, " -> ");
        push_thousands(&mut out, self.reduced_lines);
        push_str(&mut out, " lines");
        if clipboard {
            push_str(&mut out, " | copied to clipboard");
        } else {
            push_str(&mut out, "");
        }
        proof {
            assert(out@ =~= report_spec(*self, format, clipboard));
        }
        string_of(out.as_slice())
    }
}

} // verus!
