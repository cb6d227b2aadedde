//! Character-level building blocks shared by the processors: whitespace,
//! trimming, prefix and substring tests, and decimal rendering.
//!
//! Lines are handled as `Seq<char>` in specifications and as `Vec<char>` in
//! executable code; conversion to and from `str`/`String` happens at the edges.

use vstd::prelude::*;

verus! {

/// The Unicode `White_Space` property: what `char::is_whitespace`, `str::trim`
/// and the `\s` class of a regular expression all treat as space.
pub open spec fn is_space(c: char) -> bool {
    ||| ('\u{9}' <= c && c <= '\u{d}')
    ||| c == ' '
    ||| c == '\u{85}'
    ||| c == '\u{a0}'
    ||| c == '\u{1680}'
    ||| ('\u{2000}' <= c && c <= '\u{200a}')
    ||| c == '\u{2028}'
    ||| c == '\u{2029}'
    ||| c == '\u{202f}'
    ||| c == '\u{205f}'
    ||| c == '\u{3000}'
}

pub fn space(c: char) -> (b: bool)
    ensures
        b == is_space(c),
{
    ('\u{9}' <= c && c <= '\u{d}') || c == ' ' || c == '\u{85}' || c == '\u{a0}' || c
        == '\u{1680}' || ('\u{2000}' <= c && c <= '\u{200a}') || c == '\u{2028}' || c
        == '\u{2029}' || c == '\u{202f}' || c == '\u{205f}' || c == '\u{3000}'
}

pub open spec fn is_ascii_digit(c: char) -> bool {
    '0' <= c && c <= '9'
}

pub open spec fn is_ascii_alpha(c: char) -> bool {
    ('a' <= c && c <= 'z') || ('A' <= c && c <= 'Z')
}

/// ASCII letters, digits and underscore (`[A-Za-z0-9_]`).
pub open spec fn is_ascii_word(c: char) -> bool {
    is_ascii_alpha(c) || is_ascii_digit(c) || c == '_'
}

pub fn ascii_word(c: char) -> (b: bool)
    ensures
        b == is_ascii_word(c),
{
    ('a' <= c && c <= 'z') || ('A' <= c && c <= 'Z') || ('0' <= c && c <= '9') || c == '_'
}

pub fn digit(c: char) -> (b: bool)
    ensures
        b == is_ascii_digit(c),
{
    '0' <= c && c <= '9'
}

/// Whether the regular expression class `\d` (Unicode `Decimal_Number`)
/// holds the character.
pub uninterp spec fn unicode_digit(c: char) -> bool;

/// Whether the regular expression class `\w` (the Unicode word characters:
/// `Alphabetic`, `Decimal_Number`, `Mark`, `Connector_Punctuation`,
/// `Join_Control`) holds the character.
pub uninterp spec fn unicode_word(c: char) -> bool;

/// Matches the one-character text `c` against `^\d$` with the `regex` crate
/// (`Regex::new`, `Regex::is_match`); the result is named [`unicode_digit`].
/// The pattern is valid, so `Regex::new` does not fail.
#[verifier::external_body]
fn regex_digit(c: char) -> (b: bool)
    ensures
        b == unicode_digit(c),
{
    regex::Regex::new(r"^\d$").unwrap().is_match(&c.to_string())
}

/// Matches the one-character text `c` against `^\w$` with the `regex` crate
/// (`Regex::new`, `Regex::is_match`); the result is named [`unicode_word`].
/// The pattern is valid, so `Regex::new` does not fail.
#[verifier::external_body]
fn regex_word(c: char) -> (b: bool)
    ensures
        b == unicode_word(c),
{
    regex::Regex::new(r"^\w$").unwrap().is_match(&c.to_string())
}

/// `\d`: on ASCII the digits `0-9` (the ASCII part of `Decimal_Number`),
/// beyond it whatever the regular expression class holds.
pub open spec fn is_decimal_digit(c: char) -> bool {
    if c <= '\u{7f}' {
        is_ascii_digit(c)
    } else {
        unicode_digit(c)
    }
}

pub fn decimal_digit(c: char) -> (b: bool)
    ensures
        b == is_decimal_digit(c),
{
    if c <= '\u{7f}' {
        '0' <= c && c <= '9'
    } else {
        regex_digit(c)
    }
}

/// `\w`: on ASCII the letters, digits and underscore, beyond it whatever
/// the regular expression class holds.
pub open spec fn is_word(c: char) -> bool {
    if c <= '\u{7f}' {
        is_ascii_word(c)
    } else {
        unicode_word(c)
    }
}

pub fn word(c: char) -> (b: bool)
    ensures
        b == is_word(c),
{
    if c <= '\u{7f}' {
        ascii_word(c)
    } else {
        regex_word(c)
    }
}

/// Every character of `s` is space (an empty `s` included).
pub open spec fn all_space(s: Seq<char>) -> bool {
    forall|i: int| 0 <= i < s.len() ==> is_space(#[trigger] s[i])
}

/// Number of leading space characters.
pub open spec fn lead_spaces(s: Seq<char>) -> nat
    decreases s.len(),
{
    if s.len() > 0 && is_space(s[0]) {
        1 + lead_spaces(s.drop_first())
    } else {
        0
    }
}

/// Number of trailing space characters.
pub open spec fn trail_spaces(s: Seq<char>) -> nat
    decreases s.len(),
{
    if s.len() > 0 && is_space(s.last()) {
        1 + trail_spaces(s.drop_last())
    } else {
        0
    }
}

/// `str::trim_start`.
pub open spec fn trim_start(s: Seq<char>) -> Seq<char> {
    s.skip(lead_spaces(s) as int)
}

/// `str::trim_end`.
pub open spec fn trim_end(s: Seq<char>) -> Seq<char> {
    s.take(s.len() - trail_spaces(s))
}

/// `str::trim`.
pub open spec fn trim(s: Seq<char>) -> Seq<char> {
    trim_end(trim_start(s))
}

pub proof fn lemma_lead_spaces(s: Seq<char>, k: int)
    requires
        0 <= k <= s.len(),
        all_space(s.take(k)),
        k == s.len() || !is_space(s[k]),
    ensures
        lead_spaces(s) == k,
    decreases k,
{
    if k > 0 {
        assert(is_space(s.take(k)[0]));
        let t = s.drop_first();
        assert forall|i: int| 0 <= i < k - 1 implies is_space(#[trigger] t.take(k - 1)[i]) by {
            assert(t.take(k - 1)[i] == s.take(k)[i + 1]);
        }
        if k < s.len() {
            assert(t[k - 1] == s[k]);
        }
        lemma_lead_spaces(t, k - 1);
    }
}

pub proof fn lemma_trail_spaces(s: Seq<char>, k: int)
    requires
        0 <= k <= s.len(),
        all_space(s.skip(s.len() - k)),
        k == s.len() || !is_space(s[s.len() - k - 1]),
    ensures
        trail_spaces(s) == k,
    decreases k,
{
    if k > 0 {
        assert(is_space(s.skip(s.len() - k)[k - 1]));
        let t = s.drop_last();
        assert forall|i: int| 0 <= i < k - 1 implies is_space(
            #[trigger] t.skip(t.len() - (k - 1))[i],
        ) by {
            assert(t.skip(t.len() - (k - 1))[i] == s.skip(s.len() - k)[i]);
        }
        if k < s.len() {
            assert(t[t.len() - (k - 1) - 1] == s[s.len() - k - 1]);
        }
        lemma_trail_spaces(t, k - 1);
    }
}

pub proof fn lemma_all_space_trim_empty(s: Seq<char>)
    ensures
        all_space(s) <==> trim(s).len() == 0,
{
    let k = lead_spaces(s);
    lemma_lead_spaces_bound(s);
    if all_space(s) {
        assert(s.take(s.len() as int) =~= s);
        lemma_lead_spaces(s, s.len() as int);
    } else {
        let i = choose|i: int| 0 <= i < s.len() && !is_space(s[i]);
        lemma_lead_spaces_first(s);
        assert(k <= i);
        let t = trim_start(s);
        assert(t[0] == s[k as int]);
        lemma_trail_spaces_bound(t);
        lemma_trail_spaces_last(t);
    }
}

pub proof fn lemma_lead_spaces_bound(s: Seq<char>)
    ensures
        lead_spaces(s) <= s.len(),
        all_space(s.take(lead_spaces(s) as int)),
        lead_spaces(s) == s.len() || !is_space(s[lead_spaces(s) as int]),
    decreases s.len(),
{
    if s.len() > 0 && is_space(s[0]) {
        let t = s.drop_first();
        lemma_lead_spaces_bound(t);
        let k = lead_spaces(s) as int;
        assert forall|i: int| 0 <= i < k implies is_space(#[trigger] s.take(k)[i]) by {
            if i > 0 {
                assert(s.take(k)[i] == t.take(k - 1)[i - 1]);
            }
        }
        if k < s.len() {
            assert(s[k] == t[k - 1]);
        }
    }
}

/// The first non-space character sits at `lead_spaces`.
pub proof fn lemma_lead_spaces_first(s: Seq<char>)
    ensures
        forall|i: int| 0 <= i < s.len() && !is_space(s[i]) ==> lead_spaces(s) <= i,
{
    lemma_lead_spaces_bound(s);
    let k = lead_spaces(s) as int;
    assert forall|i: int| 0 <= i < s.len() && !is_space(s[i]) implies k <= i by {
        if i < k {
            assert(s.take(k)[i] == s[i]);
        }
    }
}

pub proof fn lemma_trail_spaces_bound(s: Seq<char>)
    ensures
        trail_spaces(s) <= s.len(),
        all_space(s.skip(s.len() - trail_spaces(s))),
        trail_spaces(s) == s.len() || !is_space(s[s.len() - trail_spaces(s) - 1]),
    decreases s.len(),
{
    if s.len() > 0 && is_space(s.last()) {
        let t = s.drop_last();
        lemma_trail_spaces_bound(t);
        let k = trail_spaces(s) as int;
        assert forall|i: int| 0 <= i < k implies is_space(
            #[trigger] s.skip(s.len() - k)[i],
        ) by {
            if i < k - 1 {
                assert(s.skip(s.len() - k)[i] == t.skip(t.len() - (k - 1))[i]);
            } else {
                assert(s.skip(s.len() - k)[i] == s.last());
            }
        }
        if k < s.len() {
            assert(s[s.len() - k - 1] == t[t.len() - (k - 1) - 1]);
        }
    }
}

/// Non-empty `s` whose first character is not a space keeps that character
/// after trimming the end.
pub proof fn lemma_trail_spaces_last(s: Seq<char>)
    requires
        s.len() > 0,
        !is_space(s[0]),
    ensures
        trail_spaces(s) < s.len(),
    decreases s.len(),
{
    if s.len() > 1 && is_space(s.last()) {
        lemma_trail_spaces_last(s.drop_last());
    }
}

/// Converts a string slice into its characters.
pub fn chars_of(s: &str) -> (v: Vec<char>)
    ensures
        v@ == s@,
{
    let mut v: Vec<char> = Vec::new();
    for c in it: s.chars()
        invariant
            v@ == it.seq().take(it.index() as int),
            it.seq() == s@,
    {
        v.push(c);
    }
    v
}

/// Builds a `String` from characters through std's `FromIterator<&char>` for
/// `String`; the contract claims that the string holds exactly those
/// characters, in order.
#[verifier::external_body]
pub(crate) fn string_of(v: &[char]) -> (s: String)
    ensures
        s@ == v@,
{
    v.iter().collect()
}

/// `s` starts with `p` at position `pos`.
pub open spec fn has_at(s: Seq<char>, pos: int, p: Seq<char>) -> bool {
    0 <= pos && pos + p.len() <= s.len() && s.subrange(pos, pos + p.len()) == p
}

pub fn at(v: &Vec<char>, pos: usize, p: &str) -> (b: bool)
    ensures
        b == has_at(v@, pos as int, p@),
        v@.len() <= usize::MAX,
{
    if pos > v.len() {
        return false;
    }
    let mut i: usize = 0;
    for c in it: p.chars()
        invariant
            it.seq() == p@,
            i == it.index(),
            pos + i <= v@.len(),
            v@.subrange(pos as int, pos + i) == p@.take(i as int),
    {
        if i >= v.len() - pos || v[pos + i] != c {
            proof {
                if pos + i < v.len() {
                    assert(it.seq()[it.index() as int] == c);
                    if has_at(v@, pos as int, p@) {
                        assert(v@.subrange(pos as int, pos + p@.len())[i as int] == v@[pos + i]);
                    }
                }
            }
            return false;
        }
        proof {
            assert(v@.subrange(pos as int, pos + i + 1) =~= p@.take(i + 1));
        }
        i = i + 1;
    }
    proof {
        assert(p@.take(p@.len() as int) =~= p@);
    }
    true
}

/// `p` occurs somewhere in `s`.
pub open spec fn occurs(s: Seq<char>, p: Seq<char>) -> bool {
    exists|i: int| 0 <= i <= s.len() && has_at(s, i, p)
}

pub fn contains(v: &Vec<char>, p: &str) -> (b: bool)
    ensures
        b == occurs(v@, p@),
{
    let mut i: usize = 0;
    while i < v.len()
        invariant
            i <= v@.len(),
            forall|j: int| 0 <= j < i ==> !has_at(v@, j, p@),
        decreases v@.len() - i,
    {
        if at(v, i, p) {
            return true;
        }
        i = i + 1;
    }
    let b = at(v, i, p);
    proof {
        if !b {
            assert forall|j: int| 0 <= j <= v@.len() implies !has_at(v@, j, p@) by {}
        }
    }
    b
}

/// Position of the first non-space character (the length when there is none).
pub fn lead_len(v: &Vec<char>) -> (k: usize)
    ensures
        k == lead_spaces(v@),
{
    let mut k: usize = 0;
    while k < v.len() && space(v[k])
        invariant
            k <= v@.len(),
            all_space(v@.take(k as int)),
        decreases v@.len() - k,
    {
        proof {
            assert forall|i: int| 0 <= i < k + 1 implies is_space(#[trigger] v@.take(k + 1)[i]) by {
                if i < k {
                    assert(v@.take(k + 1)[i] == v@.take(k as int)[i]);
                }
            }
        }
        k = k + 1;
    }
    proof {
        lemma_lead_spaces(v@, k as int);
    }
    k
}

/// Number of trailing space characters.
pub fn trail_len(v: &Vec<char>) -> (k: usize)
    ensures
        k == trail_spaces(v@),
{
    let mut k: usize = 0;
    while k < v.len() && space(v[v.len() - 1 - k])
        invariant
            k <= v@.len(),
            all_space(v@.skip(v@.len() - k)),
        decreases v@.len() - k,
    {
        proof {
            let s = v@;
            assert forall|i: int| 0 <= i < k + 1 implies is_space(
                #[trigger] s.skip(s.len() - (k + 1))[i],
            ) by {
                if i > 0 {
                    assert(s.skip(s.len() - (k + 1))[i] == s.skip(s.len() - k)[i - 1]);
                }
            }
        }
        k = k + 1;
    }
    proof {
        lemma_trail_spaces(v@, k as int);
    }
    k
}

/// Bounds of the trimmed line: `v@.subrange(start, end) == trim(v@)`.
pub fn trim_bounds(v: &Vec<char>) -> (r: (usize, usize))
    ensures
        r.0 <= r.1 <= v@.len(),
        v@.subrange(r.0 as int, r.1 as int) == trim(v@),
{
    let start = lead_len(v);
    let mut end = v.len();
    proof {
        lemma_lead_spaces_bound(v@);
    }
    let ghost t = trim_start(v@);
    while end > start && space(v[end - 1])
        invariant
            start <= end <= v@.len(),
            start == lead_spaces(v@),
            t == v@.skip(start as int),
            all_space(t.skip(end - start)),
        decreases end,
    {
        proof {
            let k = end - start;
            assert forall|i: int| 0 <= i < t.len() - (k - 1) implies is_space(
                #[trigger] t.skip(k - 1)[i],
            ) by {
                if i > 0 {
                    assert(t.skip(k - 1)[i] == t.skip(k as int)[i - 1]);
                } else {
                    assert(t.skip(k - 1)[0] == v@[end - 1]);
                }
            }
        }
        end = end - 1;
    }
    proof {
        let k = (t.len() - (end - start)) as int;
        assert(t.skip(t.len() - k) =~= t.skip(end - start));
        if k < t.len() {
            assert(t[t.len() - k - 1] == v@[end - 1]);
        }
        lemma_trail_spaces(t, k);
        assert(v@.subrange(start as int, end as int) =~= trim_end(t));
    }
    (start, end)
}

/// Decimal digit character for `d < 10`.
pub open spec fn digit_char(d: nat) -> char {
    if d == 0 {
        '0'
    } else if d == 1 {
        '1'
    } else if d == 2 {
        '2'
    } else if d == 3 {
        '3'
    } else if d == 4 {
        '4'
    } else if d == 5 {
        '5'
    } else if d == 6 {
        '6'
    } else if d == 7 {
        '7'
    } else if d == 8 {
        '8'
    } else {
        '9'
    }
}

/// Decimal rendering of `n`, as `format!("{}", n)` writes it.
pub open spec fn decimal(n: nat) -> Seq<char>
    decreases n,
{
    if n < 10 {
        seq![digit_char(n)]
    } else {
        decimal(n / 10).push(digit_char(n % 10))
    }
}

pub fn digit_of(d: usize) -> (c: char)
    requires
        d < 10,
    ensures
        c == digit_char(d as nat),
{
    if d == 0 {
        '0'
    } else if d == 1 {
        '1'
    } else if d == 2 {
        '2'
    } else if d == 3 {
        '3'
    } else if d == 4 {
        '4'
    } else if d == 5 {
        '5'
    } else if d == 6 {
        '6'
    } else if d == 7 {
        '7'
    } else if d == 8 {
        '8'
    } else {
        '9'
    }
}

/// Appends the decimal rendering of `n` to `out`.
pub fn push_decimal(out: &mut Vec<char>, n: usize)
    ensures
        final(out)@ == old(out)@ + decimal(n as nat),
    decreases n,
{
    if n < 10 {
        out.push(digit_of(n));
    } else {
        push_decimal(out, n / 10);
        out.push(digit_of(n % 10));
        proof {
            assert(final(out)@ =~= old(out)@ + decimal(n as nat));
        }
    }
}

/// Appends the decimal rendering of a wide `n` to `out`.
pub fn push_wide_decimal(out: &mut Vec<char>, n: u128)
    ensures
        final(out)@ == old(out)@ + decimal(n as nat),
    decreases n,
{
    if n < 10 {
        out.push(digit_of(n as usize));
    } else {
        push_wide_decimal(out, n / 10);
        out.push(digit_of((n % 10) as usize));
        proof {
            assert(final(out)@ =~= old(out)@ + decimal(n as nat));
        }
    }
}

/// Appends the characters of `s` to `out`.
pub fn push_str(out: &mut Vec<char>, s: &str)
    ensures
        final(out)@ == old(out)@ + s@,
{
    let ghost start = out@;
    for c in it: s.chars()
        invariant
            it.seq() == s@,
            out@ == start + s@.take(it.index() as int),
    {
        out.push(c);
        proof {
            assert(s@.take(it.index() + 1) =~= s@.take(it.index() as int).push(c));
        }
    }
    proof {
        assert(s@.take(s@.len() as int) =~= s@);
    }
}

/// Appends `v[from..to]` to `out`.
pub fn push_range(out: &mut Vec<char>, v: &Vec<char>, from: usize, to: usize)
    requires
        from <= to <= v@.len(),
    ensures
        final(out)@ == old(out)@ + v@.subrange(from as int, to as int),
{
    let ghost start = out@;
    let mut i = from;
    while i < to
        invariant
            from <= i <= to <= v@.len(),
            out@ == start + v@.subrange(from as int, i as int),
        decreases to - i,
    {
        out.push(v[i]);
        proof {
            assert(v@.subrange(from as int, i + 1) =~= v@.subrange(from as int, i as int).push(
                v@[i as int],
            ));
        }
        i = i + 1;
    }
}

/// Character classes the line grammars are written with.
pub enum CharKind {
    /// `\s`
    Space,
    /// `\S`
    NonSpace,
    /// `\d`
    Digit,
    /// Any character but the one given (`[^x]`).
    Not(char),
    /// Identifier characters and `.` (`[\w.]`).
    WordOrDot,
    /// Lower-case hexadecimal digits (`[0-9a-f]`).
    HexLower,
    /// Characters between the two given, inclusive.
    Range(char, char),
    /// Any character but the two given.
    NotEither(char, char),
    /// Identifier characters, `.` and `-` (`[a-zA-Z0-9_.-]`).
    WordDotDash,
    /// Identifier characters (`\w`).
    Word,
}

pub open spec fn kind_has(k: CharKind, c: char) -> bool {
    match k {
        CharKind::Space => is_space(c),
        CharKind::NonSpace => !is_space(c),
        CharKind::Digit => is_decimal_digit(c),
        CharKind::Not(x) => c != x,
        CharKind::WordOrDot => is_word(c) || c == '.',
        CharKind::HexLower => is_ascii_digit(c) || ('a' <= c && c <= 'f'),
        CharKind::Range(lo, hi) => lo <= c && c <= hi,
        CharKind::NotEither(x, y) => c != x && c != y,
        CharKind::WordDotDash => is_ascii_word(c) || c == '.' || c == '-',
        CharKind::Word => is_word(c),
    }
}

pub fn kind_test(k: &CharKind, c: char) -> (b: bool)
    ensures
        b == kind_has(*k, c),
{
    match k {
        CharKind::Space => space(c),
        CharKind::NonSpace => !space(c),
        CharKind::Digit => decimal_digit(c),
        CharKind::Not(x) => c != *x,
        CharKind::WordOrDot => word(c) || c == '.',
        CharKind::HexLower => digit(c) || ('a' <= c && c <= 'f'),
        CharKind::Range(lo, hi) => *lo <= c && c <= *hi,
        CharKind::NotEither(x, y) => c != *x && c != *y,
        CharKind::WordDotDash => ascii_word(c) || c == '.' || c == '-',
        CharKind::Word => word(c),
    }
}

/// Length of the longest run of `k` characters starting at `i`.
pub open spec fn span(s: Seq<char>, i: int, k: CharKind) -> nat
    decreases s.len() - i,
{
    if 0 <= i < s.len() && kind_has(k, s[i]) {
        1 + span(s, i + 1, k)
    } else {
        0
    }
}

pub proof fn lemma_span(s: Seq<char>, i: int, j: int, k: CharKind)
    requires
        0 <= i <= j <= s.len(),
        forall|t: int| i <= t < j ==> kind_has(k, #[trigger] s[t]),
        j == s.len() || !kind_has(k, s[j]),
    ensures
        span(s, i, k) == j - i,
    decreases j - i,
{
    if i < j {
        lemma_span(s, i + 1, j, k);
    }
}

/// Every character inside the run has the kind, and the one after it does not.
pub proof fn lemma_span_facts(s: Seq<char>, i: int, k: CharKind)
    requires
        0 <= i <= s.len(),
    ensures
        i + span(s, i, k) <= s.len(),
        forall|t: int| i <= t < i + span(s, i, k) ==> kind_has(k, #[trigger] s[t]),
        i + span(s, i, k) == s.len() || !kind_has(k, s[i + span(s, i, k)]),
    decreases s.len() - i,
{
    if i < s.len() && kind_has(k, s[i]) {
        lemma_span_facts(s, i + 1, k);
    }
}

/// End of the run of `k` characters that starts at `i`.
pub fn span_end(v: &Vec<char>, i: usize, k: CharKind) -> (j: usize)
    requires
        i <= v@.len(),
    ensures
        j == i + span(v@, i as int, k),
        j <= v@.len() <= usize::MAX,
{
    let mut j = i;
    while j < v.len() && kind_test(&k, v[j])
        invariant
            i <= j <= v@.len(),
            forall|t: int| i <= t < j ==> kind_has(k, #[trigger] v@[t]),
        decreases v@.len() - j,
    {
        j = j + 1;
    }
    proof {
        lemma_span(v@, i as int, j as int, k);
    }
    j
}

/// The lines of a vector of strings, as character sequences.
pub open spec fn lines_view(v: Seq<String>) -> Seq<Seq<char>> {
    v.map_values(|s: String| s@)
}

/// Concatenation of a sequence of line sequences.
pub open spec fn flatten(v: Seq<Seq<Seq<char>>>) -> Seq<Seq<char>>
    decreases v.len(),
{
    if v.len() == 0 {
        Seq::empty()
    } else {
        v[0] + flatten(v.drop_first())
    }
}

pub proof fn lemma_flatten_add(a: Seq<Seq<Seq<char>>>, b: Seq<Seq<Seq<char>>>)
    ensures
        flatten(a + b) == flatten(a) + flatten(b),
    decreases a.len(),
{
    if a.len() == 0 {
        assert(a + b =~= b);
    } else {
        assert((a + b).drop_first() =~= a.drop_first() + b);
        lemma_flatten_add(a.drop_first(), b);
    }
}

/// Appends clones of `lines` to `out`.
pub fn push_lines(out: &mut Vec<String>, lines: &Vec<String>)
    ensures
        lines_view(final(out)@) == lines_view(old(out)@) + lines_view(lines@),
{
    let ghost start = lines_view(out@);
    let mut i: usize = 0;
    while i < lines.len()
        invariant
            i <= lines@.len(),
            lines_view(out@) == start + lines_view(lines@).take(i as int),
        decreases lines@.len() - i,
    {
        let l = lines[i].clone();
        let ghost before = out@;
        out.push(l);
        proof {
            assert(l@ == lines@[i as int]@);
            assert(out@ == before.push(l));
            assert(lines_view(out@) =~= lines_view(before).push(l@));
            assert(lines_view(lines@).take(i + 1) =~= lines_view(lines@).take(i as int).push(
                lines@[i as int]@,
            ));
            assert(lines_view(out@) =~= start + lines_view(lines@).take(i + 1));
        }
        i = i + 1;
    }
    proof {
        assert(lines_view(lines@).take(lines@.len() as int) =~= lines_view(lines@));
    }
}

/// Appends `line` to `out` as a new `String`.
pub fn push_line(out: &mut Vec<String>, line: &str)
    ensures
        lines_view(final(out)@) == lines_view(old(out)@).push(line@),
{
    out.push(line.to_owned());
    proof {
        assert(lines_view(final(out)@) =~= lines_view(old(out)@).push(line@));
    }
}

/// Appends the characters of `v` to `out` as a new `String`.
pub fn push_chars(out: &mut Vec<String>, v: &Vec<char>)
    ensures
        lines_view(final(out)@) == lines_view(old(out)@).push(v@),
{
    out.push(string_of(v.as_slice()));
    proof {
        assert(lines_view(final(out)@) =~= lines_view(old(out)@).push(v@));
    }
}

/// `v` is exactly the text `p`.
pub fn equals(v: &Vec<char>, p: &str) -> (b: bool)
    ensures
        b == (v@ == p@),
{
    let pv = chars_of(p);
    if pv.len() != v.len() {
        return false;
    }
    let r = at(v, 0, p);
    proof {
        assert(v@.subrange(0, v@.len() as int) =~= v@);
    }
    r
}

// ---------------------------------------------------------------------------
// Subsequences
// ---------------------------------------------------------------------------

/// `f` places each element of `a` in `b`, at increasing positions.
pub open spec fn embeds<A>(a: Seq<A>, b: Seq<A>, f: spec_fn(int) -> int) -> bool {
    &&& forall|i: int| 0 <= i < a.len() ==> 0 <= #[trigger] f(i) < b.len() && a[i] == b[f(i)]
    &&& forall|i: int, j: int| 0 <= i < j < a.len() ==> #[trigger] f(i) < #[trigger] f(j)
}

/// `a` is `b` with some elements left out, the rest in their order.
pub open spec fn is_subseq<A>(a: Seq<A>, b: Seq<A>) -> bool {
    exists|f: spec_fn(int) -> int| #[trigger] embeds(a, b, f)
}

pub proof fn lemma_subseq_refl<A>(a: Seq<A>)
    ensures
        is_subseq(a, a),
{
    let f = |i: int| i;
    assert(embeds(a, a, f));
}

pub proof fn lemma_subseq_empty<A>(b: Seq<A>)
    ensures
        is_subseq(Seq::<A>::empty(), b),
{
    let f = |i: int| i;
    assert(embeds(Seq::<A>::empty(), b, f));
}

/// Subsequences concatenate.
pub proof fn lemma_subseq_concat<A>(a1: Seq<A>, b1: Seq<A>, a2: Seq<A>, b2: Seq<A>)
    requires
        is_subseq(a1, b1),
        is_subseq(a2, b2),
    ensures
        is_subseq(a1 + a2, b1 + b2),
{
    let f1 = choose|f: spec_fn(int) -> int| embeds(a1, b1, f);
    let f2 = choose|f: spec_fn(int) -> int| embeds(a2, b2, f);
    let n1 = a1.len() as int;
    let m1 = b1.len() as int;
    let g = |i: int| if i < n1 {
        f1(i)
    } else {
        m1 + f2(i - n1)
    };
    let a = a1 + a2;
    let b = b1 + b2;
    assert forall|i: int| 0 <= i < a.len() implies 0 <= #[trigger] g(i) < b.len() && a[i] == b[g(
        i,
    )] by {
        if i < n1 {
            assert(0 <= f1(i) < m1 && a1[i] == b1[f1(i)]);
        } else {
            assert(0 <= f2(i - n1) < b2.len() && a2[i - n1] == b2[f2(i - n1)]);
        }
    }
    assert forall|i: int, j: int| 0 <= i < j < a.len() implies #[trigger] g(i) < #[trigger] g(j) by {
        if j < n1 {
            assert(f1(i) < f1(j));
        } else if i >= n1 {
            assert(f2(i - n1) < f2(j - n1));
        } else {
            assert(0 <= f1(i) < m1);
            assert(0 <= f2(j - n1));
        }
    }
    assert(embeds(a, b, g));
}

/// A subsequence of a subsequence is a subsequence.
pub proof fn lemma_subseq_trans<A>(a: Seq<A>, b: Seq<A>, c: Seq<A>)
    requires
        is_subseq(a, b),
        is_subseq(b, c),
    ensures
        is_subseq(a, c),
{
    let f = choose|f: spec_fn(int) -> int| embeds(a, b, f);
    let g = choose|g: spec_fn(int) -> int| embeds(b, c, g);
    let h = |i: int| g(f(i));
    assert forall|i: int| 0 <= i < a.len() implies 0 <= #[trigger] h(i) < c.len() && a[i] == c[h(
        i,
    )] by {
        assert(0 <= f(i) < b.len() && a[i] == b[f(i)]);
        assert(0 <= g(f(i)) < c.len() && b[f(i)] == c[g(f(i))]);
    }
    assert forall|i: int, j: int| 0 <= i < j < a.len() implies #[trigger] h(i) < #[trigger] h(j) by {
        assert(f(i) < f(j));
        assert(0 <= f(j) < b.len());
        assert(0 <= f(i));
        assert(g(f(i)) < g(f(j)));
    }
    assert(embeds(a, c, h));
}

/// Elements may be added on either side of the larger sequence.
pub proof fn lemma_subseq_widen<A>(a: Seq<A>, x: Seq<A>, b: Seq<A>, y: Seq<A>)
    requires
        is_subseq(a, b),
    ensures
        is_subseq(a, x + b + y),
{
    lemma_subseq_empty(x);
    lemma_subseq_concat(Seq::<A>::empty(), x, a, b);
    assert(Seq::<A>::empty() + a =~= a);
    lemma_subseq_empty(y);
    lemma_subseq_concat(a, x + b, Seq::<A>::empty(), y);
    assert(a + Seq::<A>::empty() =~= a);
}

/// Leaving out a tail keeps a subsequence.
pub proof fn lemma_subseq_prefix<A>(a: Seq<A>, b: Seq<A>, c: Seq<A>)
    requires
        is_subseq(a + b, c),
    ensures
        is_subseq(a, c),
{
    lemma_subseq_refl(a);
    lemma_subseq_widen(a, Seq::empty(), a, b);
    assert(Seq::<A>::empty() + a + b =~= a + b);
    lemma_subseq_trans(a, a + b, c);
}

} // verus!
