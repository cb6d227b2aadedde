# ctrim

Strip noise from terminal output before it reaches a language model: ANSI
codes and progress redraws, repeated lines, vendor stack frames, far diff
context, lockfile churn. Every line that survives is an input line, byte for
byte, in its input order; the lines a stage writes in place of lines it
dropped are markers that say what went (repeat counts, omitted frames,
skipped files). Blank runs and far diff context go without a marker.

The library is written in Verus and proved against its contracts.

## Layout

- `src/text.rs`: character-level helpers and the small grammars the
  processors are written with.
- `src/detector.rs`: format detection by weighted line signatures.
- `src/processors/`: the streaming line processors (`ansi`, `dedupe`,
  `diff`, `stacktrace`) and the `Chain` that runs them back to back. Each
  processor has a model and a step function in spec code; the executable
  processor is proved to follow it, and the laws (bounded window, collapsed
  blank runs, repeat notes accounting for every folded line, survivors
  verbatim, order kept, user frames kept, changes and only nearby context
  kept, nothing held after the final flush) are proved over the model. The
  chain keeps a record of what it handed each stage and what each stage
  wrote, and proves that each stage is handed exactly what the one before it
  wrote, for processors it knows nothing of too.
- `src/formatters/`: Markdown, XML and raw layouts.
- `src/pipeline.rs`: the `Session` state machine (head buffer, detection,
  chain, layout, counts), `run` and `run_str` over whole inputs, the proof
  that streaming writes exactly what a whole-input run writes, and the
  end-to-end laws: every surviving line is an input line or a marker, and
  content lines leave in the order they came.
- `src/token/`: the token estimator, the line-by-line counter, and exact
  `o200k_base` counts through `tiktoken-rs`.
- `src/utils/stats.rs`: reduction accounting and the one-line report.
- `app/`: the command line program: arguments, files, standard streams,
  clipboard.
- `tests/`: the test suite.
