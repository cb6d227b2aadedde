use ctrim::processors::dedupe::{normalize, Deduper};
use ctrim::processors::LineProcessor;

fn run(lines: &[&str], capacity: usize) -> Vec<String> {
    let mut proc = Deduper::new(capacity, true);
    let mut out: Vec<String> = Vec::new();
    for line in lines {
        proc.on_line(line, &mut out);
    }
    proc.finish(&mut out);
    out
}

#[test]
fn collapses_adjacent_identical_lines() {
    let out = run(&["Connecting to database...."; 5], 64);
    assert_eq!(
        out,
        vec![r#"[Repeated 5 times: "Connecting to database...."]"#]
    );
}

#[test]
fn single_occurrence_passes_through_unchanged() {
    let out = run(&["one line only, nothing repeated"], 64);
    assert_eq!(out, vec!["one line only, nothing repeated"]);
}

#[test]
fn timestamps_do_not_prevent_folding() {
    let out = run(
        &[
            "2024-05-01T10:00:01Z WARN retrying upstream connection",
            "2024-05-01T10:00:02Z WARN retrying upstream connection",
            "2024-05-01T10:00:03Z WARN retrying upstream connection",
        ],
        64,
    );
    assert_eq!(out.len(), 1);
    assert!(out[0].starts_with("[Repeated 3 times:"), "got {}", out[0]);
}

#[test]
fn near_identical_lines_fold_within_ninety_percent() {
    let out = run(
        &[
            "waiting for container startup, attempt 9",
            "waiting for container startup, attempt 10",
            "waiting for container startup, attempt 11",
        ],
        64,
    );
    assert_eq!(out.len(), 1, "got {out:?}");
}

#[test]
fn distinct_lines_are_preserved_in_order() {
    let out = run(&["alpha", "beta", "gamma"], 64);
    assert_eq!(out, vec!["alpha", "beta", "gamma"]);
}

#[test]
fn interleaved_repeats_are_counted_by_the_window() {
    let out = run(
        &[
            "polling job status endpoint for completion",
            "still running the background worker task",
            "polling job status endpoint for completion",
            "still running the background worker task",
            "polling job status endpoint for completion",
        ],
        64,
    );
    let joined = out.join("\n");
    assert!(joined.contains("+2 more occurrences"), "got {joined}");
    assert!(joined.contains("+1 more occurrences"), "got {joined}");
    assert_eq!(out[0], "polling job status endpoint for completion");
    assert_eq!(out[1], "still running the background worker task");
}

#[test]
fn short_lines_are_not_window_deduped() {
    let out = run(&["}", "  return None", "}", "  return None"], 64);
    assert_eq!(out.len(), 4);
}

#[test]
fn blank_runs_collapse_without_a_note() {
    let out = run(&["a", "", "", "", "b"], 64);
    assert_eq!(out, vec!["a", "", "b"]);
}

#[test]
fn blank_lines_left_by_suppression_also_collapse() {
    let block = [
        "the same warning line repeated in a block",
        "  with an indented detail line under it",
        "",
    ];
    let mut lines: Vec<&str> = Vec::new();
    for _ in 0..4 {
        lines.extend_from_slice(&block);
    }
    lines.push("tail");
    let out = run(&lines, 64);
    let blanks = out.iter().filter(|l| l.is_empty()).count();
    assert_eq!(blanks, 1, "got {out:?}");
}

#[test]
fn notes_land_near_the_lines_they_describe() {
    let mut lines: Vec<String> = Vec::new();
    for i in 0..3 {
        lines.push("a repeated warning line in the middle of output".to_string());
        lines.push(format!("unique filler line number {i} here"));
    }
    for i in 0..20 {
        lines.push(format!("later unrelated output line number {i}"));
    }
    let refs: Vec<&str> = lines.iter().map(String::as_str).collect();
    let out = run(&refs, 64);
    let note_at = out
        .iter()
        .position(|l| l.starts_with("[+"))
        .expect("note emitted");
    assert!(note_at < 10, "note at {note_at} in {out:?}");
}

#[test]
fn open_run_is_flushed_at_end_of_input() {
    let out = run(
        &[
            "x",
            "tail line repeated twice here",
            "tail line repeated twice here",
        ],
        64,
    );
    assert_eq!(out.len(), 2);
    assert!(out[1].starts_with("[Repeated 2 times:"));
}

#[test]
fn long_samples_are_truncated_in_the_note() {
    let long = "e".repeat(400);
    let out = run(&[long.as_str(), long.as_str()], 64);
    assert!(out[0].ends_with("...\"]"), "got {}", out[0]);
    assert!(out[0].len() < 200);
}

#[test]
fn exact_mode_keeps_lines_that_differ_by_a_number() {
    let lines = [
        "waiting for container startup, attempt 9",
        "waiting for container startup, attempt 10",
    ];
    let mut proc = Deduper::new(64, false);
    let mut out: Vec<String> = Vec::new();
    for line in lines {
        proc.on_line(line, &mut out);
    }
    proc.finish(&mut out);
    assert_eq!(out.len(), 2, "got {out:?}");
}

#[test]
fn normalize_masks_numbers_and_ids_only_when_fuzzy() {
    let line = "req 2024-05-01 id=9f8e7d6c5b4a3210 took 42ms";
    assert_eq!(normalize(line, true), b"req #-#-# id=# took #ms");
    assert_eq!(normalize(line, false), line.as_bytes());
}

#[test]
fn normalize_collapses_whitespace() {
    assert_eq!(normalize("  a\t\t b  ", false), b"a b");
}

#[test]
fn a_window_of_one_remembers_only_the_last_line() {
    let a = "first long line that is worth remembering";
    let b = "second long line that is worth remembering";
    let out = run(&[a, b, a, b, "end"], 0);
    assert_eq!(out[0], a);
    assert_eq!(out[1], b);
    assert_eq!(out.len(), 5, "got {out:?}");
}

#[test]
fn the_processor_is_named_dedupe() {
    assert_eq!(Deduper::new(4, true).name(), "dedupe");
}

#[test]
fn every_written_line_is_an_input_line_or_a_note() {
    let input = [
        "first line of a noisy block of output",
        "first line of a noisy block of output",
        "   ",
        "",
        "second line of a noisy block of output",
        "first line of a noisy block of output",
        "x",
        "y",
        "z",
        "w",
    ];
    let out = run(&input, 64);
    for line in &out {
        assert!(
            input.contains(&line.as_str())
                || line.is_empty()
                || line.starts_with("[Repeated ")
                || line.starts_with("[+"),
            "unaccounted line {line:?} in {out:?}"
        );
    }
}

#[test]
fn the_short_line_limit_counts_characters_not_bytes() {
    let e = "\u{e9}".repeat(12);
    let out = run(&[&e, "x", &e], 64);
    assert_eq!(out, vec![e.clone(), "x".to_string(), e.clone()]);
    let long = "\u{e9}".repeat(24);
    let out = run(&[&long, "a different line", &long], 64);
    assert_eq!(out.len(), 3);
    assert!(out[2].starts_with("[+1 more occurrences of: "));
}

fn stands_for(o: &str) -> usize {
    let number = |rest: &str| -> usize {
        rest.chars()
            .take_while(|c| c.is_ascii_digit())
            .collect::<String>()
            .parse()
            .unwrap()
    };
    if let Some(rest) = o.strip_prefix("[Repeated ") {
        number(rest)
    } else if let Some(rest) = o.strip_prefix("[+") {
        number(rest)
    } else if o.trim().is_empty() {
        0
    } else {
        1
    }
}

#[test]
fn notes_account_for_every_non_blank_line() {
    let lines = [
        "connection to redis refused, retrying now",
        "connection to redis refused, retrying now",
        "worker 3 picked up job 17 from the queue",
        "connection to redis refused, retrying now",
        "",
        "",
        "}",
        "}",
        "worker 4 picked up job 18 from the queue",
        "connection to redis refused, retrying now",
        "done",
    ];
    let out = run(&lines, 64);
    let nonblank = lines.iter().filter(|l| !l.trim().is_empty()).count();
    let accounted: usize = out.iter().map(|o| stands_for(o)).sum();
    assert_eq!(accounted, nonblank, "{out:?}");
}

#[test]
fn a_fuzzy_key_holds_no_digit() {
    let key = normalize("2024-05-01T10:00:04Z retry attempt=41 request=9f8e7d6c5b4a3210", true);
    assert!(!key.iter().any(|b| b.is_ascii_digit()));
}

#[test]
fn a_key_is_its_own_key() {
    for fuzzy in [true, false] {
        for line in [
            "  2024-05-01T10:00:04Z   WARN retry attempt=41 request=9f8e7d6c5b4a3210  ",
            "\tconnection to redis refused, retrying\t",
            "caf\u{e9} au lait 42",
            "",
        ] {
            let k = normalize(line, fuzzy);
            let again = normalize(std::str::from_utf8(&k).unwrap(), fuzzy);
            assert_eq!(again, k);
        }
    }
}
