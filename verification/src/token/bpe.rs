//! Exact BPE counting with `tiktoken-rs` and the `o200k_base` tokenizer.
//!
//! `o200k_base` is the closest public tokenizer to the models this output is
//! usually pasted into. Several vendors keep their tokenizer private, so these
//! counts approximate those models; they are exact for OpenAI `o200k` models.

use vstd::prelude::*;

use crate::text::{all_space, chars_of, is_space, space};

verus! {

/// The longest run of space characters (Unicode `White_Space`) a text may
/// hold for the tokenizer. Its pre-tokenizer pattern matches such a run with a
/// backtracking regex engine that gives up (and the tokenizer panics) once its
/// stack holds a million entries, about one entry per character of the run.
pub const MAX_SPACE_RUN: usize = 400_000;

/// No `MAX_SPACE_RUN + 1` consecutive characters of `s` are all space.
pub open spec fn space_runs_fit(s: Seq<char>) -> bool {
    forall|i: int|
        0 <= i && i + MAX_SPACE_RUN + 1 <= s.len() ==> !all_space(
            #[trigger] s.subrange(i, i + MAX_SPACE_RUN + 1),
        )
}

/// The number of tokens `o200k_base` encodes `text` into.
pub uninterp spec fn o200k_token_count(text: Seq<char>) -> nat;

/// Calls `CoreBPE::encode_ordinary` on the shared `o200k_base` tokenizer
/// (`tiktoken_rs::o200k_base_singleton`) and returns the number of tokens.
///
/// The count is a function of the text alone and is given by name. The empty
/// text encodes to no tokens: every alternative of the `o200k_base`
/// pre-tokenizer pattern consumes at least one character, so no match is found.
/// `encode_ordinary` unwraps each `fancy_regex` match, and the pattern's
/// `\s+(?!\S)` branch runs in the backtracking engine, whose stack overflows
/// (an error, hence a panic) on a run of about a million space characters:
/// such texts are left out by the `requires`.
#[verifier::external_body]
fn o200k_encode_len(text: &str) -> (n: usize)
    requires
        space_runs_fit(text@),
    ensures
        n == o200k_token_count(text@),
        text@.len() == 0 ==> n == 0,
{
    tiktoken_rs::o200k_base_singleton().encode_ordinary(text).len()
}

/// Exact token count of `text` under `o200k_base`. The tokenizer cannot
/// take a text with a space run longer than [`MAX_SPACE_RUN`].
pub fn count(text: &str) -> (n: usize)
    requires
        space_runs_fit(text@),
    ensures
        n == o200k_token_count(text@),
        text@.len() == 0 ==> n == 0,
{
    o200k_encode_len(text)
}

/// Exact token count of `text` under `o200k_base`, or `None` when the text
/// holds a run of more than [`MAX_SPACE_RUN`] space characters, which the
/// tokenizer cannot take.
pub fn count_checked(text: &str) -> (r: Option<usize>)
    ensures
        r is None <==> !space_runs_fit(text@),
        r matches Some(n) ==> n == o200k_token_count(text@),
{
    let v = chars_of(text);
    let mut run: usize = 0;
    let mut i: usize = 0;
    while i < v.len()
        invariant
            v@ == text@,
            i <= v@.len(),
            run <= MAX_SPACE_RUN,
            run <= i,
            forall|j: int| i - run <= j < i ==> is_space(#[trigger] v@[j]),
            run < i ==> !is_space(v@[i - run - 1]),
            forall|x: int|
                0 <= x && x + MAX_SPACE_RUN + 1 <= i ==> !all_space(
                    #[trigger] v@.subrange(x, x + MAX_SPACE_RUN + 1),
                ),
        decreases v@.len() - i,
    {
        if space(v[i]) {
            if run == MAX_SPACE_RUN {
                proof {
                    let x = i - MAX_SPACE_RUN;
                    let w = v@.subrange(x, x + MAX_SPACE_RUN + 1);
                    assert forall|t: int| 0 <= t < w.len() implies is_space(#[trigger] w[t]) by {
                        assert(w[t] == v@[x + t]);
                    }
                    assert(all_space(w));
                }
                return None;
            }
            run = run + 1;
        } else {
            run = 0;
        }
        proof {
            assert forall|x: int| 0 <= x && x + MAX_SPACE_RUN + 1 <= i + 1 implies !all_space(
                #[trigger] v@.subrange(x, x + MAX_SPACE_RUN + 1),
            ) by {
                if x + MAX_SPACE_RUN + 1 == i + 1 {
                    let w = v@.subrange(x, x + MAX_SPACE_RUN + 1);
                    if is_space(v@[i as int]) {
                        // The run is short enough: the character before it is
                        // inside the window and is not space.
                        let j = i - run;
                        assert(j >= x);
                        assert(!is_space(v@[j]));
                        assert(w[j - x] == v@[j]);
                    } else {
                        assert(w[i - x] == v@[i as int]);
                    }
                }
            }
        }
        i = i + 1;
    }
    Some(o200k_encode_len(text))
}

} // verus!
