use ctrim::token::heuristic::{units, NEWLINE_UNITS, NON_ASCII_UNITS};
use ctrim::token::{approx_marker, count, is_exact, Counter};

#[test]
fn empty_text_has_no_tokens() {
    assert_eq!(ctrim::token::heuristic::count(""), 0);
    assert_eq!(units(""), 0);
}

#[test]
fn units_are_additive_over_lines() {
    let text = "error: something failed\n  at main.rs:10\nsecond line here\n";
    let summed: usize = text.lines().map(|l| units(l) + NEWLINE_UNITS).sum();
    assert_eq!(summed, units(text));
}

#[test]
fn longer_text_costs_more_tokens() {
    let c = ctrim::token::heuristic::count;
    assert!(c("a much longer line of log output here") > c("short"));
}

#[test]
fn punctuation_and_digits_cost_more_than_prose_of_equal_length() {
    let c = ctrim::token::heuristic::count;
    let prose = "the quick brown fox jumps over the lazy dogs today";
    let dense = "a={b:1,c:[2,3]};d=(e?f:g)&&h||i;j-=k*l/m%n;o^p~q!r";
    assert_eq!(prose.len(), dense.len());
    assert!(c(dense) > c(prose), "{} vs {}", c(dense), c(prose));
}

#[test]
fn estimate_is_in_a_sane_range_for_prose() {
    let tokens = ctrim::token::heuristic::count("the quick brown fox jumps over the lazy dog today ok");
    assert!((8..=16).contains(&tokens), "estimated {tokens}");
}

#[test]
fn escape_sequences_cost_more_than_plain_punctuation() {
    assert!(units("\u{1b}[1m") > units("x[1m"));
}

#[test]
fn multibyte_characters_are_charged_once() {
    assert_eq!(units("é"), NON_ASCII_UNITS);
    assert_eq!(units("→"), NON_ASCII_UNITS);
}

#[test]
fn indentation_is_free() {
    assert_eq!(units("        indented"), units("indented"));
}

#[test]
fn unit_weights_are_as_documented() {
    // one word, one digit, one punctuation mark, one escape
    assert_eq!(units("word"), 105);
    assert_eq!(units("7"), 95);
    assert_eq!(units(";"), 65);
    assert_eq!(units("\u{1b}"), 150);
    assert_eq!(units("two words"), 210);
    assert_eq!(ctrim::token::heuristic::count("two words"), 2);
}

#[test]
fn counter_matches_whole_text_counting() {
    let lines = [
        "first line of output",
        "second: line = 42",
        "third [line] here",
    ];
    let mut counter = Counter::new();
    for line in lines {
        counter.add_line(line);
    }
    let whole = format!("{}\n", lines.join("\n"));
    let difference = counter.tokens().abs_diff(count(&whole));
    assert!(difference <= 1, "{} vs {}", counter.tokens(), count(&whole));
}

#[test]
fn counter_equals_whole_text_count_exactly() {
    let lines = ["alpha beta", "gamma = 1", "", "delta"];
    let mut counter = Counter::new();
    for line in lines {
        counter.add_line(line);
    }
    let whole = format!("{}\n", lines.join("\n"));
    assert_eq!(counter.tokens(), count(&whole));
}

#[test]
fn empty_counter_reports_zero() {
    assert_eq!(Counter::new().tokens(), 0);
}

#[test]
fn estimates_are_marked_as_approximate() {
    assert!(!is_exact());
    assert_eq!(approx_marker(), "~");
}

#[test]
fn counts_a_known_string() {
    assert!(ctrim::token::bpe::count("hello world") <= 3);
    assert_eq!(ctrim::token::bpe::count(""), 0);
}

#[test]
fn exact_count_of_a_short_text_is_positive() {
    assert!(ctrim::token::bpe::count("hello world") >= 1);
}

#[test]
fn checked_count_refuses_only_overlong_space_runs() {
    assert_eq!(ctrim::token::bpe::count_checked("hello world"), Some(ctrim::token::bpe::count("hello world")));
    assert_eq!(ctrim::token::bpe::count_checked(""), Some(0));
    let long = " ".repeat(ctrim::token::bpe::MAX_SPACE_RUN + 1);
    assert_eq!(ctrim::token::bpe::count_checked(&long), None);
    assert!(ctrim::token::bpe::count_checked("a     b\n\n  c").is_some());
}
