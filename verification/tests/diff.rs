use ctrim::processors::diff::DiffMinimizer;
use ctrim::processors::LineProcessor;

fn run(input: &str, context: usize) -> String {
    let mut proc = DiffMinimizer::new(context);
    let mut out: Vec<String> = Vec::new();
    for line in input.lines() {
        proc.on_line(line, &mut out);
    }
    proc.finish(&mut out);
    out.join("\n")
}

#[test]
fn drops_context_beyond_the_configured_window() {
    let mut input = String::from("diff --git a/src/a.rs b/src/a.rs\nindex 111..222 100644\n--- a/src/a.rs\n+++ b/src/a.rs\n@@ -1,12 +1,12 @@\n");
    for i in 1..=8 {
        input.push_str(&format!(" line {i}\n"));
    }
    input.push_str("-old value\n+new value\n");
    for i in 9..=12 {
        input.push_str(&format!(" line {i}\n"));
    }
    let out = run(&input, 2);
    assert!(
        !out.contains("line 1\n"),
        "far context should be dropped:\n{out}"
    );
    assert!(out.contains(" line 7"));
    assert!(out.contains(" line 8"));
    assert!(out.contains("-old value"));
    assert!(out.contains("+new value"));
    assert!(out.contains(" line 9"));
    assert!(!out.contains("line 11"));
}

#[test]
fn recomputed_hunk_header_counts_match_the_body() {
    let input = "diff --git a/a.txt b/a.txt\n--- a/a.txt\n+++ b/a.txt\n@@ -10,5 +10,5 @@\n one\n two\n-three\n+THREE\n four\n";
    let out = run(input, 1);
    let header = out.lines().find(|l| l.starts_with("@@")).unwrap();
    assert_eq!(header, "@@ -11,3 +11,3 @@");
}

#[test]
fn distant_changes_split_into_separate_hunks() {
    let mut input = String::from(
        "diff --git a/a.txt b/a.txt\n--- a/a.txt\n+++ b/a.txt\n@@ -1,30 +1,30 @@\n",
    );
    input.push_str("-first change\n+first changed\n");
    for i in 1..=20 {
        input.push_str(&format!(" filler {i}\n"));
    }
    input.push_str("-second change\n+second changed\n");
    let out = run(&input, 2);
    assert_eq!(out.matches("@@ -").count(), 2, "got:\n{out}");
    assert!(!out.contains("filler 10"));
}

#[test]
fn index_lines_are_removed() {
    let input = "diff --git a/a.txt b/a.txt\nindex 89abc12..def3456 100644\n--- a/a.txt\n+++ b/a.txt\n@@ -1,1 +1,1 @@\n-a\n+b\n";
    let out = run(input, 3);
    assert!(!out.contains("index 89abc12"));
    assert!(out.contains("--- a/a.txt"));
}

#[test]
fn lockfiles_collapse_to_a_summary_line() {
    let input = "diff --git a/Cargo.lock b/Cargo.lock\nindex 1..2 100644\n--- a/Cargo.lock\n+++ b/Cargo.lock\n@@ -1,4 +1,4 @@\n-old\n-older\n+new\n+newer\n+newest\ndiff --git a/src/main.rs b/src/main.rs\n--- a/src/main.rs\n+++ b/src/main.rs\n@@ -1,1 +1,1 @@\n-x\n+y\n";
    let out = run(input, 3);
    assert!(
        out.contains("[skipped generated file Cargo.lock: +3/-2 lines]"),
        "got:\n{out}"
    );
    assert!(!out.contains("--- a/Cargo.lock"));
    assert!(out.contains("--- a/src/main.rs"));
    assert!(out.contains("+y"));
}

#[test]
fn binary_files_collapse_to_a_marker() {
    let input = "diff --git a/logo.png b/logo.png\nindex 1..2 100644\nBinary files a/logo.png and b/logo.png differ\n";
    let out = run(input, 3);
    assert_eq!(
        out,
        "diff --git a/logo.png b/logo.png\n[binary file logo.png changed]"
    );
}

#[test]
fn context_only_hunks_are_dropped_entirely() {
    let input =
        "diff --git a/a.txt b/a.txt\n--- a/a.txt\n+++ b/a.txt\n@@ -1,2 +1,2 @@\n one\n two\n";
    let out = run(input, 3);
    assert!(!out.contains("@@"));
}

#[test]
fn no_newline_marker_stays_with_its_line() {
    let input = "diff --git a/a.txt b/a.txt\n--- a/a.txt\n+++ b/a.txt\n@@ -1,1 +1,1 @@\n-a\n+b\n\\ No newline at end of file\n";
    let out = run(input, 3);
    assert!(out.contains("\\ No newline at end of file"));
}

#[test]
fn non_diff_input_passes_through() {
    let out = run("hello\nworld", 3);
    assert_eq!(out, "hello\nworld");
}

#[test]
fn every_change_line_survives_minimization() {
    let input = "diff --git a/a.txt b/a.txt\n--- a/a.txt\n+++ b/a.txt\n@@ -1,9 +1,9 @@\n a\n b\n-c\n+C\n d\n e\n f\n g\n-h\n+H\n";
    let out = run(input, 0);
    for change in ["-c", "+C", "-h", "+H"] {
        assert!(out.lines().any(|l| l == change), "lost {change}:\n{out}");
    }
    assert_eq!(out.matches("@@ -").count(), 2, "got:\n{out}");
}

#[test]
fn the_processor_is_named_diff() {
    assert_eq!(DiffMinimizer::new(1).name(), "diff");
}

#[test]
fn every_written_line_is_an_input_line_a_header_or_a_marker() {
    let input = "diff --git a/Cargo.lock b/Cargo.lock\n--- a/Cargo.lock\n+++ b/Cargo.lock\n@@ -1,2 +1,2 @@\n-a\n+b\ndiff --git a/x.txt b/x.txt\nindex 1..2 100644\n--- a/x.txt\n+++ b/x.txt\n@@ -1,6 +1,6 @@\n one\n two\n three\n-four\n+FOUR\n five\n";
    let out = run(input, 1);
    let lines: Vec<&str> = input.lines().collect();
    for line in out.lines() {
        assert!(
            lines.contains(&line) || line.starts_with("@@ -") || line.starts_with("[skipped generated file "),
            "unaccounted line {line:?}"
        );
    }
    assert!(out.contains("@@ -3,3 +3,3 @@"), "got:\n{out}");
}
