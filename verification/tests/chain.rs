use ctrim::processors::ansi::AnsiStripper;
use ctrim::processors::dedupe::Deduper;
use ctrim::processors::{Chain, LineProcessor, LineSink, Stage, VecSink};

/// Emits each line twice, plus one line at finish.
struct Doubler;
impl LineProcessor for Doubler {
    fn on_line(&mut self, line: &str, out: &mut Vec<String>) {
        out.emit(line);
        out.emit(line);
    }
    fn finish(&mut self, out: &mut Vec<String>) {
        out.emit("tail");
    }
    fn name(&self) -> &'static str {
        "doubler"
    }
}

struct Upper;
impl LineProcessor for Upper {
    fn on_line(&mut self, line: &str, out: &mut Vec<String>) {
        out.emit(&line.to_uppercase());
    }
    fn name(&self) -> &'static str {
        "upper"
    }
}

#[test]
fn chain_feeds_each_stage_into_the_next() {
    let mut chain = Chain::new(vec![Box::new(Doubler), Box::new(Upper)]);
    let mut out: Vec<String> = Vec::new();
    chain.on_line("a", &mut out);
    assert_eq!(out, vec!["A", "A"]);
}

#[test]
fn finish_output_flows_through_later_stages() {
    let mut chain = Chain::new(vec![Box::new(Doubler), Box::new(Upper)]);
    let mut out: Vec<String> = Vec::new();
    chain.on_line("a", &mut out);
    chain.finish(&mut out);
    assert_eq!(out, vec!["A", "A", "TAIL"]);
}

#[test]
fn vec_sink_reuses_allocations_after_reset() {
    let mut sink = VecSink::default();
    sink.emit("first");
    sink.reset();
    sink.emit("second");
    assert_eq!(sink.as_slice(), ["second"]);
    assert_eq!(sink.slots(), 1, "allocation should be reused, not grown");
}

#[test]
fn vec_sink_grows_past_its_slots() {
    let mut sink = VecSink::new();
    assert!(sink.is_empty());
    sink.emit("a");
    sink.emit("b");
    sink.reset();
    sink.emit("c");
    assert_eq!(sink.as_slice(), ["c"]);
    sink.emit("d");
    sink.emit("e");
    assert_eq!(sink.as_slice(), ["c", "d", "e"]);
    assert_eq!(sink.slots(), 3);
    assert!(!sink.is_empty());
}

#[test]
fn an_empty_chain_passes_lines_through() {
    let mut chain = Chain::new(Vec::new());
    assert!(chain.is_empty());
    let mut out: Vec<String> = Vec::new();
    chain.on_line("x", &mut out);
    chain.finish(&mut out);
    assert_eq!(out, vec!["x"]);
    assert!(chain.summary().is_empty());
}

#[test]
fn built_in_stages_run_in_order() {
    let mut chain = Chain::of_stages(vec![
        Stage::Ansi(AnsiStripper::new()),
        Stage::Dedupe(Deduper::new(64, true)),
    ]);
    let mut out: Vec<String> = Vec::new();
    for _ in 0..3 {
        chain.on_line("\x1b[31mConnecting to database....\x1b[0m", &mut out);
    }
    chain.finish(&mut out);
    assert_eq!(
        out,
        vec![r#"[Repeated 3 times: "Connecting to database...."]"#]
    );
}

#[test]
fn custom_and_built_in_stages_mix() {
    let mut chain = Chain::of_stages(vec![
        Stage::custom(Box::new(Doubler)),
        Stage::Dedupe(Deduper::new(64, true)),
    ]);
    let mut out: Vec<String> = Vec::new();
    chain.on_line("x", &mut out);
    chain.finish(&mut out);
    assert_eq!(out, vec![r#"[Repeated 2 times: "x"]"#, "tail"]);
}
