use ctrim::detector::{detect, FormatType};

fn detect_str(input: &str) -> FormatType {
    let lines: Vec<&str> = input.lines().collect();
    detect(&lines)
}

#[test]
fn detects_git_diff() {
    let input = "diff --git a/src/main.rs b/src/main.rs\nindex 1234567..89abcde 100644\n--- a/src/main.rs\n+++ b/src/main.rs\n@@ -1,3 +1,3 @@";
    assert_eq!(detect_str(input), FormatType::GitDiff);
}

#[test]
fn detects_pytest() {
    let input = "collected 42 items\n\ntests/test_api.py .......F\n=================================== FAILURES ===================================\nE   AssertionError: assert 4 == 5";
    assert_eq!(detect_str(input), FormatType::Pytest);
}

#[test]
fn detects_cargo() {
    let input =
        "   Compiling ctrim v0.1.0\nerror[E0308]: mismatched types\n  --> src/main.rs:10:5";
    assert_eq!(detect_str(input), FormatType::CargoCheck);
}

#[test]
fn detects_docker_compose_logs() {
    let input = "api_1  | 2024-05-01T10:00:00Z level=info msg=started\napi_1  | 2024-05-01T10:00:01Z level=info msg=ready";
    assert_eq!(detect_str(input), FormatType::DockerLog);
}

#[test]
fn detects_json_lines() {
    let input = "{\"level\":\"info\",\"msg\":\"a\"}\n{\"level\":\"info\",\"msg\":\"b\"}";
    assert_eq!(detect_str(input), FormatType::JsonLines);
}

#[test]
fn unremarkable_text_is_generic() {
    assert_eq!(
        detect_str("hello world\nsecond line"),
        FormatType::GenericLog
    );
}

#[test]
fn empty_input_is_generic() {
    let empty: [&str; 0] = [];
    assert_eq!(detect(&empty), FormatType::GenericLog);
}

#[test]
fn a_single_weak_signature_stays_below_the_threshold() {
    // One JSON line scores 2, under the minimum of 4.
    assert_eq!(
        detect_str("{\"level\":\"info\"}"),
        FormatType::GenericLog
    );
}

#[test]
fn on_equal_scores_the_later_format_wins() {
    // A hunk header (3, git diff) against a compose prefix (3, docker log):
    // neither alone reaches the threshold, so both are repeated once.
    let input = "@@ -1,2 +1,2 @@\n@@ -4,2 +4,2 @@\nweb  | up\nweb  | up";
    assert_eq!(detect_str(input), FormatType::DockerLog);
}

#[test]
fn labels_and_fence_languages() {
    assert_eq!(FormatType::Pytest.label(), "pytest");
    assert_eq!(FormatType::CargoCheck.label(), "cargo");
    assert_eq!(FormatType::GitDiff.label(), "git-diff");
    assert_eq!(FormatType::DockerLog.label(), "docker-log");
    assert_eq!(FormatType::JsonLines.label(), "json-lines");
    assert_eq!(FormatType::GenericLog.label(), "generic-log");
    assert_eq!(FormatType::GitDiff.fence_language(), "diff");
    assert_eq!(FormatType::JsonLines.fence_language(), "json");
    assert_eq!(FormatType::Pytest.fence_language(), "text");
}

#[test]
fn word_and_digit_classes_reach_beyond_ascii() {
    assert_eq!(detect(&["E  \u{e9}", "E  \u{e9}"]), FormatType::Pytest);
    // Arabic-Indic digits are decimal digits too.
    assert_eq!(
        detect(&["collected \u{661}\u{662} items"]),
        FormatType::Pytest
    );
}
