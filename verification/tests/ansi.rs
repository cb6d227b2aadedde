use ctrim::processors::ansi::AnsiStripper;
use ctrim::processors::LineProcessor;

fn clean(s: &str) -> String {
    AnsiStripper::new().clean(s)
}

#[test]
fn strips_sgr_color_codes() {
    assert_eq!(
        clean("\x1b[31mFAILED\x1b[0m test_login"),
        "FAILED test_login"
    );
}

#[test]
fn strips_cursor_and_erase_sequences() {
    assert_eq!(clean("\x1b[2K\x1b[1Gbuilding"), "building");
}

#[test]
fn strips_osc_hyperlinks() {
    assert_eq!(
        clean("\x1b]8;;https://example.com\x07link\x1b]8;;\x07"),
        "link"
    );
}

#[test]
fn keeps_leading_whitespace_intent() {
    assert_eq!(clean("\x1b[33m    at foo.js:1\x1b[0m"), "    at foo.js:1");
}

#[test]
fn collapses_carriage_return_progress_frames() {
    assert_eq!(clean("10%\r50%\r100% done"), "100% done");
}

#[test]
fn trailing_cr_keeps_last_content_segment() {
    assert_eq!(clean("downloading\r"), "downloading");
}

#[test]
fn applies_backspaces() {
    assert_eq!(clean("abcX\x08"), "abc");
}

#[test]
fn plain_line_is_untouched() {
    assert_eq!(
        clean("  File \"a.py\", line 3, in f"),
        "  File \"a.py\", line 3, in f"
    );
}

#[test]
fn stripper_emits_one_cleaned_line_per_input_line() {
    let mut s = AnsiStripper::new();
    let mut out: Vec<String> = Vec::new();
    s.on_line("\x1b[1mbold\x1b[0m", &mut out);
    s.on_line("", &mut out);
    s.finish(&mut out);
    assert_eq!(out, vec!["bold", ""]);
    assert_eq!(s.name(), "ansi");
}

#[test]
fn cleaning_twice_changes_nothing_more() {
    let once = clean("\x1b[31m10%\r\x1b[32mdone\x08!\x1b[0m");
    assert_eq!(clean(&once), once);
}

#[test]
fn several_trailing_carriage_returns_keep_the_last_frame_with_content() {
    assert_eq!(clean("abc\r\r"), "abc");
    assert_eq!(clean("10%\r100% done\r \r\r"), "100% done");
    assert_eq!(clean("\r\r"), "");
}
