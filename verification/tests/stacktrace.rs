use ctrim::processors::stacktrace::StackFolder;
use ctrim::processors::LineProcessor;

fn run(input: &str, keep: usize) -> (Vec<String>, Vec<String>) {
    let mut proc = StackFolder::new(keep);
    let mut out: Vec<String> = Vec::new();
    for line in input.lines() {
        proc.on_line(line, &mut out);
    }
    proc.finish(&mut out);
    let summary = proc.summary();
    (out, summary)
}

const PY_TRACE: &str = r#"Traceback (most recent call last):
  File "app/main.py", line 42, in handler
    return service.run(payload)
  File "/srv/.venv/lib/python3.11/site-packages/flask/app.py", line 1, in wsgi_app
    rv = self.dispatch_request()
  File "/srv/.venv/lib/python3.11/site-packages/flask/app.py", line 2, in dispatch_request
    rv = self.ensure_sync(self.view_functions[rule.endpoint])
  File "/srv/.venv/lib/python3.11/site-packages/werkzeug/local.py", line 3, in inner
    return f(*args, **kwargs)
  File "/srv/.venv/lib/python3.11/site-packages/werkzeug/local.py", line 4, in inner2
    return f(*args, **kwargs)
  File "/srv/.venv/lib/python3.11/site-packages/click/core.py", line 5, in invoke
    return ctx.invoke(self.callback)
  File "app/service.py", line 7, in run
    raise ValueError("bad payload")
ValueError: bad payload"#;

#[test]
fn python_user_frames_and_exception_survive() {
    let (out, _) = run(PY_TRACE, 3);
    let joined = out.join("\n");
    assert!(joined.contains("app/main.py"));
    assert!(joined.contains("app/service.py"));
    assert!(joined.ends_with("ValueError: bad payload"));
    assert!(joined.starts_with("Traceback (most recent call last):"));
}

#[test]
fn python_vendor_run_is_folded_with_a_count() {
    let (out, _) = run(PY_TRACE, 3);
    let joined = out.join("\n");
    assert!(
        joined.contains("[... 2 vendor frames omitted ...]"),
        "got:\n{joined}"
    );
    assert_eq!(joined.matches("site-packages").count(), 3, "got:\n{joined}");
}

#[test]
fn keep_frames_zero_folds_the_whole_vendor_run() {
    let (out, _) = run(PY_TRACE, 0);
    let joined = out.join("\n");
    assert!(
        joined.contains("[... 5 vendor frames omitted ...]"),
        "got:\n{joined}"
    );
    assert!(!joined.contains("site-packages"));
}

#[test]
fn python_exception_line_becomes_the_summary() {
    let (_, summary) = run(PY_TRACE, 3);
    assert_eq!(summary, vec!["ValueError: bad payload"]);
}

#[test]
fn short_vendor_runs_are_left_alone() {
    let input = r#"Traceback (most recent call last):
  File "app/main.py", line 1, in a
    b()
  File "/srv/.venv/lib/python3.11/site-packages/x.py", line 2, in b
    c()
  File "app/other.py", line 3, in c
    raise RuntimeError("x")
RuntimeError: x"#;
    let (out, _) = run(input, 3);
    assert!(!out.join("\n").contains("omitted"));
}

#[test]
fn javascript_frames_fold_node_modules() {
    let input = r#"TypeError: Cannot read properties of undefined
    at handler (/srv/app/index.js:10:15)
    at /srv/node_modules/express/lib/router/layer.js:95:5
    at next (/srv/node_modules/express/lib/router/route.js:144:13)
    at Route.dispatch (/srv/node_modules/express/lib/router/route.js:114:3)
    at Layer.handle (/srv/node_modules/express/lib/router/layer.js:95:5)
    at processTicksAndRejections (node:internal/process/task_queues:95:5)
    at main (/srv/app/server.js:4:1)
done"#;
    let (out, summary) = run(input, 2);
    let joined = out.join("\n");
    assert!(
        joined.contains("[... 3 vendor frames omitted ...]"),
        "got:\n{joined}"
    );
    assert!(joined.contains("at handler (/srv/app/index.js:10:15)"));
    assert!(joined.contains("at main (/srv/app/server.js:4:1)"));
    assert!(joined.ends_with("done"));
    assert_eq!(
        summary,
        vec!["TypeError: Cannot read properties of undefined"]
    );
}

#[test]
fn frames_without_a_source_file_count_as_vendor() {
    let input = "TypeError: boom\n    at fail (/srv/app/a.js:1:1)\n    at /srv/node_modules/x/y.js:2:2\n    at new Promise (<anonymous>)\n    at /srv/node_modules/x/z.js:3:3\n    at main (/srv/app/b.js:4:4)\ndone";
    let (out, _) = run(input, 1);
    let joined = out.join("\n");
    assert!(
        joined.contains("[... 2 vendor frames omitted ...]"),
        "got:\n{joined}"
    );
}

#[test]
fn pytest_long_form_frames_fold() {
    let input = r#"____________________ test_get ____________________

tests/test_api.py:12: in test_get
    resp = client.get("/users")
../.venv/lib/python3.11/site-packages/requests/api.py:73: in get
    return request("get", url, **kwargs)
../.venv/lib/python3.11/site-packages/requests/api.py:59: in request
    return session.request(method=method, url=url, **kwargs)
../.venv/lib/python3.11/site-packages/requests/sessions.py:589: in request
    resp = self.send(prep, **send_kwargs)
../.venv/lib/python3.11/site-packages/requests/adapters.py:519: in send
    raise ConnectionError(e, request=request)
E   requests.exceptions.ConnectionError: Max retries exceeded"#;
    let (out, summary) = run(input, 1);
    let joined = out.join("\n");
    assert!(joined.contains("tests/test_api.py:12: in test_get"));
    assert!(
        joined.contains("[... 3 vendor frames omitted ...]"),
        "got:\n{joined}"
    );
    assert!(joined.contains("E   requests.exceptions.ConnectionError"));
    assert_eq!(summary.len(), 1);
}

#[test]
fn rust_backtrace_folds_std_frames() {
    let input = r#"stack backtrace:
   0: rust_begin_unwind
             at /rustc/abc/library/std/src/panicking.rs:665:5
   1: core::panicking::panic_fmt
             at /rustc/abc/library/core/src/panicking.rs:74:14
   2: core::panicking::panic
             at /rustc/abc/library/core/src/panicking.rs:148:5
   3: core::option::Option<T>::unwrap
             at /rustc/abc/library/core/src/option.rs:935:21
   4: myapp::config::load
             at ./src/config.rs:22:9
note: run with RUST_BACKTRACE=full"#;
    let (out, _) = run(input, 1);
    let joined = out.join("\n");
    assert!(
        joined.contains("[... 3 vendor frames omitted ...]"),
        "got:\n{joined}"
    );
    assert!(joined.contains("myapp::config::load"));
    assert!(joined.ends_with("note: run with RUST_BACKTRACE=full"));
}

#[test]
fn trace_open_at_end_of_input_is_still_emitted() {
    let input =
        "Traceback (most recent call last):\n  File \"app/main.py\", line 1, in a\n    b()";
    let (out, _) = run(input, 3);
    assert_eq!(out.len(), 3);
}

#[test]
fn plain_text_passes_through_untouched() {
    let input = "hello\nworld";
    let (out, _) = run(input, 3);
    assert_eq!(out, vec!["hello", "world"]);
}

#[test]
fn repeated_errors_enter_the_summary_once() {
    let input = "error: first\nerror: first\nerror[E0308]: second";
    let (out, summary) = run(input, 3);
    assert_eq!(out.len(), 3);
    assert_eq!(summary, vec!["error: first", "error[E0308]: second"]);
}

#[test]
fn the_summary_holds_at_most_eight_lines() {
    let mut input = String::new();
    for i in 0..12 {
        input.push_str(&format!("error: number {i}\n"));
    }
    let (_, summary) = run(&input, 3);
    assert_eq!(summary.len(), 8);
    assert_eq!(summary[7], "error: number 7");
}

#[test]
fn the_processor_is_named_stacktrace() {
    assert_eq!(StackFolder::new(1).name(), "stacktrace");
}

#[test]
fn every_written_line_is_an_input_line_or_a_marker() {
    let (out, _) = run(PY_TRACE, 1);
    let input: Vec<&str> = PY_TRACE.lines().collect();
    for line in &out {
        assert!(
            input.contains(&line.as_str()) || line.ends_with("vendor frames omitted ...]"),
            "unaccounted line {line:?}"
        );
    }
}

#[test]
fn pytest_exception_lines_survive_under_vendor_frames() {
    let mut s = StackFolder::new(0);
    let mut out: Vec<String> = Vec::new();
    for l in [
        "tests/test_a.py:1: in test_a",
        "/x/site-packages/lib.py:2: in f",
        "E   ValueError: boom",
    ] {
        s.on_line(l, &mut out);
    }
    assert_eq!(out.last().map(|s| s.as_str()), Some("E   ValueError: boom"));
    s.on_line("done", &mut out);
    assert!(out.iter().any(|l| l == "tests/test_a.py:1: in test_a"));
    assert!(out.iter().any(|l| l == "E   ValueError: boom"));
    assert_eq!(out.last().map(|s| s.as_str()), Some("done"));
}
