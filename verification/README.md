# pllm

A byte-level BPE tokenizer, verified with Verus, and a small scalar autograd
engine that trains an XOR network.

## Layout

- `src/` — the verified library (crate `pllm`):
  - `chunks.rs` — the pre-tokenizer: text is cut into chunks (a word, a single
    digit, a run of symbols, each with at most one leading space, or a run of
    whitespace) that BPE never merges across.
  - `pairs.rs` — adjacent id pairs: counting them, picking the most frequent,
    merging them.
  - `bpe.rs` — the tokenizer: its abstract model, encoding and decoding.
    - `bpe/train.rs` — learning merge rules from a corpus.
    - `bpe/persist.rs` — the merge table as text, and reading it back.
    - `bpe/inspect.rs` — rendering tokens, the readable merge table, the
      longest tokens.
    - `bpe/spans.rs` — how learned tokens sit inside the chunks of a corpus.
    - `bpe/replay.rs` — how encoding applies the merges, and how it relates to the training run.
  - `ids.rs` — token ids as a compact binary file.
  - `parse.rs`, `render.rs`, `unicode.rs` — lines and words, decimal and
    hexadecimal numbers, character classes and UTF-8.
  - `rng.rs`, `activation.rs` — the integer parts of the network: the
    xorshift64 generator and which activation each layer uses.
- `app/` — what runs outside the verifier: the autograd engine and the
  network (floating point throughout), and printing the training log.
- `tests/` — the test suite.
