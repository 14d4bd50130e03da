# phonikud-rs

Hebrew text preparation for speech: numbers, dates, times, punctuation,
geresh conventions and dictionary words are expanded into spoken Hebrew, and
the per-character predictions of a diacritization model are turned back into
vocalized text.

## Layout

- `src/` — the library, verified with Verus.
  - `text.rs`: characters, UTF-8 lengths, whitespace tokens, joining and
    splitting, digit parsing.
  - `pattern.rs`: regular-expression matches (through the `regex` crate) and
    the replacement of matched ranges.
  - `expander/`: the expansion pipeline (`mod.rs`), one module per rule
    (`numbers`, `dates`, `time`, `punctuation`, `hebrew_chars`,
    `dictionary`), and `spans.rs`, the laws of normalization and of the span
    bookkeeping. Original spans are character positions in the input text;
    expanded spans are byte ranges of the expanded text.
  - `model.rs`: nikud removal, the nikud / shin class tables, and the
    reconstruction of diacritized text from token offsets and predictions.
- `app/` — the parts that touch the outside world: the process-wide
  dictionary with dictionaries loaded from disk, and the ONNX Runtime session
  with its tokenizer.
- `tests/` — tests of the library.
