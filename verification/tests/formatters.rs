use ctrim::detector::FormatType;
use ctrim::formatters::markdown::MarkdownFormatter;
use ctrim::formatters::raw::RawFormatter;
use ctrim::formatters::xml::{neutralize, XmlFormatter};
use ctrim::formatters::{build, Formatter, RenderContext};
use ctrim::OutputFormat;

#[test]
fn closing_tags_in_content_are_defused() {
    assert_eq!(
        neutralize("log line </context> more"),
        "log line < /context> more"
    );
}

#[test]
fn ordinary_content_is_not_escaped() {
    let line = "if (a < b && c > d) { }";
    assert_eq!(neutralize(line), line);
}

#[test]
fn both_closing_tags_are_defused_everywhere() {
    assert_eq!(
        neutralize("</error_summary></context></context>"),
        "< /error_summary>< /context>< /context>"
    );
}

fn summary_ctx() -> RenderContext {
    RenderContext {
        format: FormatType::Pytest,
        error_summary: vec!["ValueError: boom".to_string()],
    }
}

#[test]
fn markdown_opens_a_fence_and_lists_errors() {
    let mut f = MarkdownFormatter;
    let mut out: Vec<String> = Vec::new();
    let ctx = summary_ctx();
    f.begin(&mut out, &ctx);
    f.line(&mut out, "hello");
    f.end(&mut out, &ctx);
    assert_eq!(
        out,
        vec!["```text", "hello", "```", "", "**Errors**", "- ValueError: boom"]
    );
}

#[test]
fn xml_wraps_content_and_the_summary() {
    let mut f = XmlFormatter;
    let mut out: Vec<String> = Vec::new();
    let ctx = summary_ctx();
    f.begin(&mut out, &ctx);
    f.line(&mut out, "a </context> b");
    f.end(&mut out, &ctx);
    assert_eq!(
        out,
        vec![
            "<context type=\"pytest\">",
            "a < /context> b",
            "</context>",
            "<error_summary>",
            "ValueError: boom",
            "</error_summary>"
        ]
    );
}

#[test]
fn raw_adds_nothing() {
    let mut f = RawFormatter;
    let mut out: Vec<String> = Vec::new();
    let ctx = summary_ctx();
    f.begin(&mut out, &ctx);
    f.line(&mut out, "hello");
    f.end(&mut out, &ctx);
    assert_eq!(out, vec!["hello"]);
}

#[test]
fn built_formatter_matches_the_layout() {
    let mut f = build(OutputFormat::Xml);
    let mut out: Vec<String> = Vec::new();
    let ctx = RenderContext {
        format: FormatType::GitDiff,
        error_summary: Vec::new(),
    };
    f.begin(&mut out, &ctx);
    f.end(&mut out, &ctx);
    assert_eq!(out, vec!["<context type=\"git-diff\">", "</context>"]);
}
