//! Dependency-free token estimation.
//!
//! Vocabularies map common words to one token, split digits into small groups
//! and spend a token on most punctuation; counting those separately tracks real
//! tokenizer output closely with no vocabulary to ship. Counting is done in
//! hundredths of a token ([`SCALE`] units per token) so that a stream summed
//! line by line equals counting the whole text at once.

use vstd::prelude::*;
use vstd::string::StringSliceAdditionalSpecFns;

verus! {

/// Units per token.
pub const SCALE: usize = 100;

/// A run of letters and underscores, the shape of a vocabulary entry.
pub const WORD_UNITS: usize = 105;

/// Each digit.
pub const DIGIT_UNITS: usize = 95;

/// Each ASCII punctuation character.
pub const PUNCT_UNITS: usize = 65;

/// Each newline.
pub const NEWLINE_UNITS: usize = 35;

/// Each non-ASCII character, charged on its leading byte.
pub const NON_ASCII_UNITS: usize = 100;

/// Each escape character: a colour sequence costs about one and a half tokens
/// beyond the punctuation it contains.
pub const ESCAPE_UNITS: usize = 150;

/// Letters and underscore continue a word.
pub open spec fn is_word_byte(b: u8) -> bool {
    (0x41 <= b && b <= 0x5a) || (0x61 <= b && b <= 0x7a) || b == 0x5f
}

/// Units charged for a byte that is not part of a word.
pub open spec fn byte_units(b: u8) -> nat {
    if 0x30 <= b && b <= 0x39 {
        DIGIT_UNITS as nat
    } else if b == 0x0a {
        NEWLINE_UNITS as nat
    } else if b == 0x1b {
        ESCAPE_UNITS as nat
    } else if b == 0x20 || b == 0x09 || b == 0x0d || b == 0x0b || b == 0x0c {
        0
    } else if 0x80 <= b && b <= 0xbf {
        // UTF-8 continuation byte: the character was charged on its leading byte.
        0
    } else if b < 0x80 {
        PUNCT_UNITS as nat
    } else {
        NON_ASCII_UNITS as nat
    }
}

/// Units of `bytes`, given whether the byte before them continued a word.
pub open spec fn units_of(bytes: Seq<u8>, in_word: bool) -> nat
    decreases bytes.len(),
{
    if bytes.len() == 0 {
        0
    } else if is_word_byte(bytes[0]) {
        (if in_word {
            0
        } else {
            WORD_UNITS as nat
        }) + units_of(bytes.drop_first(), true)
    } else {
        byte_units(bytes[0]) + units_of(bytes.drop_first(), false)
    }
}

/// The estimate in units, saturated at the machine limit.
pub open spec fn units_spec(bytes: Seq<u8>) -> nat {
    let u = units_of(bytes, false);
    if u <= usize::MAX {
        u
    } else {
        usize::MAX as nat
    }
}

fn byte_cost(b: u8) -> (u: usize)
    ensures
        u == byte_units(b),
{
    if 0x30 <= b && b <= 0x39 {
        DIGIT_UNITS
    } else if b == 0x0a {
        NEWLINE_UNITS
    } else if b == 0x1b {
        ESCAPE_UNITS
    } else if b == 0x20 || b == 0x09 || b == 0x0d || b == 0x0b || b == 0x0c {
        0
    } else if 0x80 <= b && b <= 0xbf {
        0
    } else if b < 0x80 {
        PUNCT_UNITS
    } else {
        NON_ASCII_UNITS
    }
}

/// Estimated tokens in `text`, in [`SCALE`] units per token.
///
/// Walks bytes: every classification is an ASCII test, and a UTF-8
/// continuation byte never looks like one.
pub fn units(text: &str) -> (u: usize)
    ensures
        u == units_spec(text.spec_bytes()),
{
    let bytes = text.as_bytes();
    let ghost all = bytes@;
    let ghost mut acc: nat = 0;
    let mut total: usize = 0;
    let mut in_word = false;
    let mut i: usize = 0;
    proof {
        assert(all.skip(0) =~= all);
    }
    while i < bytes.len()
        invariant
            bytes@ == all,
            i <= all.len(),
            acc + units_of(all.skip(i as int), in_word) == units_of(all, false),
            total == (if acc <= usize::MAX { acc } else { usize::MAX as nat }),
        decreases all.len() - i,
    {
        let b = bytes[i];
        proof {
            assert(all.skip(i as int).drop_first() =~= all.skip(i + 1));
            assert(all.skip(i as int)[0] == b);
        }
        if (0x41 <= b && b <= 0x5a) || (0x61 <= b && b <= 0x7a) || b == 0x5f {
            if !in_word {
                total = total.saturating_add(WORD_UNITS);
                proof {
                    acc = acc + WORD_UNITS as nat;
                }
            }
            in_word = true;
        } else {
            in_word = false;
            let c = byte_cost(b);
            total = total.saturating_add(c);
            proof {
                acc = acc + c as nat;
            }
        }
        i = i + 1;
    }
    total
}

/// Estimated tokens in `text`, rounded once.
pub fn count(text: &str) -> (n: usize)
    ensures
        n == units_spec(text.spec_bytes()) / SCALE as nat,
{
    units(text) / SCALE
}

/// Counting a newline-joined text equals counting its parts: the newline
/// ends any word, so nothing is charged twice or lost at the seam.
pub proof fn lemma_units_split_at_newline(a: Seq<u8>, c: Seq<u8>, in_word: bool)
    ensures
        units_of(a + seq![0x0au8] + c, in_word) == units_of(a, in_word) + NEWLINE_UNITS
            + units_of(c, false),
    decreases a.len(),
{
    if a.len() == 0 {
        let s = a + seq![0x0au8] + c;
        assert(s[0] == 0x0au8);
        assert(s.drop_first() =~= c);
    } else {
        let s = a + seq![0x0au8] + c;
        assert(s[0] == a[0]);
        assert(s.drop_first() =~= a.drop_first() + seq![0x0au8] + c);
        if is_word_byte(a[0]) {
            lemma_units_split_at_newline(a.drop_first(), c, true);
        } else {
            lemma_units_split_at_newline(a.drop_first(), c, false);
        }
    }
}

} // verus!
