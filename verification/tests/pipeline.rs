use ctrim::detector::{from_index, index, FormatType};
use ctrim::pipeline::{build_chain, decode_line, run, run_str, Session, HEAD_LINES};
use ctrim::{process, Config, OutputFormat, Preset};

fn raw_config() -> Config {
    Config {
        format: OutputFormat::Raw,
        ..Config::default()
    }
}

#[test]
fn passes_clean_input_through_unchanged() {
    let out = run_str("alpha\nbeta\n", &raw_config());
    assert_eq!(out.content, "alpha\nbeta\n");
    assert_eq!(out.original_line_count, 2);
    assert_eq!(out.processed_line_count, 2);
}

#[test]
fn detects_format_beyond_the_head_buffer() {
    let mut input = String::new();
    for i in 0..(HEAD_LINES + 50) {
        input.push_str(&format!(
            "api_1  | 2024-05-01T10:00:0{}Z level=info msg=tick\n",
            i % 10
        ));
    }
    let out = run_str(&input, &raw_config());
    assert_eq!(out.detected_type, FormatType::DockerLog);
    assert!(
        out.processed_line_count < 20,
        "got {} lines",
        out.processed_line_count
    );
}

#[test]
fn detects_format_through_ansi_colour_codes() {
    let input = "\x1b[1m\x1b[91merror[E0308]\x1b[0m: mismatched types\n \x1b[1m\x1b[94m--> \x1b[0msrc/main.rs:6:5\n";
    assert_eq!(
        run_str(input, &raw_config()).detected_type,
        FormatType::CargoCheck
    );
}

#[test]
fn preset_overrides_detection() {
    let config = Config {
        preset: Preset::Diff,
        ..raw_config()
    };
    let out = run_str("nothing diff-like here\n", &config);
    assert_eq!(out.detected_type, FormatType::GitDiff);
}

#[test]
fn invalid_utf8_does_not_abort_the_run() {
    let mut bytes = b"good line\n".to_vec();
    bytes.extend_from_slice(&[0xff, 0xfe, b'\n']);
    bytes.extend_from_slice(b"another good line\n");
    let mut out: Vec<u8> = Vec::new();
    let outcome = run(&bytes, &mut out, &raw_config());
    assert_eq!(outcome.stats.raw_lines, 3);
}

#[test]
fn invalid_utf8_is_replaced_not_dropped() {
    let bytes = [b'a', 0xff, b'b', b'\n'];
    let mut out: Vec<u8> = Vec::new();
    run(&bytes, &mut out, &raw_config());
    assert_eq!(String::from_utf8(out).unwrap(), "a\u{fffd}b\n");
}

#[test]
fn markdown_format_wraps_content_in_a_fence() {
    let out = run_str("hello\n", &Config::default());
    assert!(out.content.starts_with("```text\n"));
    assert!(out.content.trim_end().ends_with("```"));
}

#[test]
fn markdown_output_is_exact() {
    let out = run_str("hello\n", &Config::default());
    assert_eq!(out.content, "```text\nhello\n```\n");
}

#[test]
fn xml_format_tags_the_detected_type() {
    let config = Config {
        format: OutputFormat::Xml,
        ..Config::default()
    };
    let out = run_str(
        "diff --git a/a b/a\n--- a/a\n+++ b/a\n@@ -1,1 +1,1 @@\n-x\n+y\n",
        &config,
    );
    assert!(out.content.starts_with("<context type=\"git-diff\">"));
    assert!(out.content.trim_end().ends_with("</context>"));
}

#[test]
fn error_summary_reaches_the_output() {
    let input = "Traceback (most recent call last):\n  File \"a.py\", line 1, in f\n    g()\nValueError: boom\n";
    let config = Config {
        format: OutputFormat::Xml,
        ..Config::default()
    };
    let out = run_str(input, &config);
    assert!(out.content.contains("<error_summary>"));
    assert!(out.content.contains("ValueError: boom"));
    assert_eq!(out.error_summary, vec!["ValueError: boom"]);
}

#[test]
fn empty_input_produces_empty_content_and_zero_stats() {
    let out = run_str("", &raw_config());
    assert_eq!(out.content, "");
    assert_eq!(out.stats.raw_tokens, 0);
    assert_eq!(out.stats.reduction_text(), "0.0");
}

#[test]
fn dedupe_only_skips_the_other_processors() {
    let config = Config {
        dedupe_only: true,
        ..raw_config()
    };
    let input = "Traceback (most recent call last):\n  File \"/srv/.venv/lib/python3.11/site-packages/a.py\", line 1, in f\n    g()\nValueError: boom\n";
    let out = run_str(input, &config);
    assert!(
        out.content.contains("site-packages"),
        "trace must survive: {}",
        out.content
    );
}

#[test]
fn crlf_line_endings_are_stripped() {
    let out = run_str("one\r\ntwo\r\n", &raw_config());
    assert_eq!(out.content, "one\ntwo\n");
    assert_eq!(out.stats.raw_lines, 2);
}

#[test]
fn a_last_line_without_newline_still_counts() {
    let out = run_str("one\ntwo", &raw_config());
    assert_eq!(out.content, "one\ntwo\n");
    assert_eq!(out.original_line_count, 2);
}

#[test]
fn stats_count_bytes_with_their_newlines() {
    let out = run_str("abc\nde\n", &raw_config());
    assert_eq!(out.stats.raw_bytes, 7);
    assert_eq!(out.stats.reduced_bytes, 7);
    assert_eq!(out.stats.raw_lines, 2);
}

#[test]
fn streaming_matches_the_whole_string_run() {
    let mut input = String::new();
    for i in 0..(HEAD_LINES + 30) {
        input.push_str(&format!("worker {} finished job number {}\n", i % 3, i));
    }
    input.push_str("Traceback (most recent call last):\n  File \"a.py\", line 1, in f\nValueError: late\n");
    let config = Config::default();
    let whole = run_str(&input, &config);

    let mut session = Session::new(&config);
    let mut out: Vec<String> = Vec::new();
    for line in input.lines() {
        session.push_line(line, &mut out);
    }
    let outcome = session.finish(&mut out);
    let mut text = String::new();
    for line in &out {
        text.push_str(line);
        text.push('\n');
    }
    assert_eq!(text, whole.content);
    assert_eq!(outcome.stats, whole.stats);
    assert_eq!(outcome.error_summary, whole.error_summary);
}

#[test]
fn nothing_is_written_before_the_head_is_full() {
    let config = Config::default();
    let mut session = Session::new(&config);
    let mut out: Vec<String> = Vec::new();
    for _ in 0..(HEAD_LINES - 1) {
        session.push_line("some line", &mut out);
    }
    assert!(out.is_empty());
    session.push_line("some line", &mut out);
    assert_eq!(out[0], "```text");
}

#[test]
fn chains_differ_by_format() {
    let config = raw_config();
    assert!(!build_chain(FormatType::GitDiff, &config).is_empty());
    let keep = Config {
        preserve_ansi: true,
        dedupe_only: true,
        ..raw_config()
    };
    let mut chain = build_chain(FormatType::Pytest, &keep);
    let mut out: Vec<String> = Vec::new();
    chain.on_line("\x1b[31mred\x1b[0m", &mut out);
    chain.finish(&mut out);
    assert_eq!(out, vec!["\x1b[31mred\x1b[0m"]);
}

#[test]
fn process_is_run_str() {
    let a = process("alpha\nalpha\n", &raw_config());
    assert_eq!(a.content, "[Repeated 2 times: \"alpha\"]\n");
    assert_eq!(a.processed_line_count, 1);
}

#[test]
fn preset_formats() {
    assert_eq!(Preset::Auto.as_format(), None);
    assert_eq!(Preset::Cargo.as_format(), Some(FormatType::CargoCheck));
    assert_eq!(Preset::Json.as_format(), Some(FormatType::JsonLines));
}

#[test]
fn decode_line_drops_the_terminator_only() {
    assert_eq!(decode_line(b"abc\r\n"), "abc");
    assert_eq!(decode_line(b"abc\n"), "abc");
    assert_eq!(decode_line(b"a\rb"), "a\rb");
    assert_eq!(decode_line(b"tail\r"), "tail\r");
    assert_eq!(decode_line(&[0xff, b'\n']), "\u{fffd}");
    assert_eq!(decode_line(b""), "");
}

#[test]
fn score_table_positions_round_trip() {
    for f in [
        FormatType::Pytest,
        FormatType::CargoCheck,
        FormatType::GitDiff,
        FormatType::DockerLog,
        FormatType::JsonLines,
        FormatType::GenericLog,
    ] {
        assert_eq!(from_index(index(f)), f);
    }
}

#[test]
fn every_content_line_is_an_input_line_or_a_marker() {
    let input = "\x1b[31mstarting\x1b[0m\nTraceback (most recent call last):\n  File \"/srv/.venv/lib/python3.11/site-packages/a.py\", line 1, in f\n    g()\n  File \"/srv/.venv/lib/python3.11/site-packages/b.py\", line 2, in g\n    h()\n  File \"app/c.py\", line 3, in h\n    raise ValueError(1)\nValueError: 1\nretrying the upstream connection now\nretrying the upstream connection now\n\n\n\ndone\n";
    let config = Config {
        keep_frames: 0,
        ..raw_config()
    };
    let out = run_str(input, &config);
    let cleaned: Vec<String> = input
        .lines()
        .map(|l| ctrim::processors::ansi::AnsiStripper::new().clean(l))
        .collect();
    for line in out.content.lines() {
        assert!(
            cleaned.iter().any(|c| c == line)
                || line.is_empty()
                || line.starts_with("[Repeated ")
                || line.starts_with("[+")
                || line.ends_with("vendor frames omitted ...]"),
            "unaccounted line {line:?} in:\n{}",
            out.content
        );
    }
    // The outermost frame is pinned, so one of the two vendor frames goes.
    assert!(out.content.contains("[... 1 vendor frames omitted ...]"));
    assert!(out.content.contains("[Repeated 2 times: \"retrying the upstream connection now\"]"));
    assert!(out.content.starts_with("starting\n"));
}

#[test]
fn content_lines_keep_their_input_order() {
    let input = "\x1b[32mboot\x1b[0m\nTraceback (most recent call last):\n  File \"/srv/.venv/lib/python3.11/site-packages/a.py\", line 1, in f\n    g()\n  File \"/srv/.venv/lib/python3.11/site-packages/b.py\", line 2, in g\n    h()\n  File \"app/c.py\", line 3, in h\n    raise ValueError(1)\nValueError: 1\nsame line\nsame line\nsame line\nlast\n";
    let config = Config {
        keep_frames: 0,
        ..raw_config()
    };
    let out = run_str(input, &config);
    let cleaned: Vec<String> = input
        .lines()
        .map(|l| ctrim::processors::ansi::AnsiStripper::new().clean(l))
        .collect();
    let mut next = 0;
    for line in out.content.lines() {
        let marker = line.is_empty()
            || line.starts_with("[Repeated ")
            || line.starts_with("[+")
            || line.ends_with("vendor frames omitted ...]");
        if marker {
            continue;
        }
        let at = cleaned[next..]
            .iter()
            .position(|c| c == line)
            .unwrap_or_else(|| panic!("{line:?} out of order in:\n{}", out.content));
        next += at + 1;
    }
    assert!(out.content.starts_with("boot\nTraceback"));
    assert!(out.content.ends_with("last\n"));
}

#[test]
fn nothing_held_back_is_lost_at_end_of_input() {
    let input = "start\nTraceback (most recent call last):\n  File \"app/x.py\", line 1, in f\n    g()\n";
    let out = run_str(input, &raw_config());
    assert_eq!(out.content, input);
    let repeated = run_str("tick tock tick tock\ntick tock tick tock\n", &raw_config());
    assert_eq!(repeated.content, "[Repeated 2 times: \"tick tock tick tock\"]\n");
}

const STABLE_DIFF: &str = "diff --git a/src/x.rs b/src/x.rs\nindex 89abc12..def3456 100644\n--- a/src/x.rs\n+++ b/src/x.rs\n@@ -1,5 +1,5 @@\n one\n two\n-three\n+THREE\n four\n five\n";

const STABLE_BODY: &str = "diff --git a/src/x.rs b/src/x.rs\n--- a/src/x.rs\n+++ b/src/x.rs\n@@ -2,3 +2,3 @@\n two\n-three\n+THREE\n four\n";

fn stable(format: OutputFormat) -> String {
    process(
        STABLE_DIFF,
        &Config {
            format,
            ..Config::default()
        },
    )
    .content
}

#[test]
fn raw_output_is_stable() {
    assert_eq!(stable(OutputFormat::Raw), STABLE_BODY);
}

#[test]
fn markdown_output_is_stable() {
    assert_eq!(
        stable(OutputFormat::Markdown),
        format!("```diff\n{STABLE_BODY}```\n")
    );
}

#[test]
fn xml_output_is_stable() {
    assert_eq!(
        stable(OutputFormat::Xml),
        format!("<context type=\"git-diff\">\n{STABLE_BODY}</context>\n")
    );
}
