# tokenizer

A word-level tokenizer, verified with Verus.

- `src/text.rs`: whitespace, trimming, text to characters.
- `src/splitter.rs`: splitting text at delimiters (kept as tokens of their
  own), trimming the pieces and dropping the empty ones; the laws that
  splitting loses nothing and alternates text and delimiters.
- `src/order.rs`: the code-point order of strings, sorted sequences, and
  sequences with repetitions left out.
- `src/external.rs`: the contracts of `indexmap::IndexSet` and of
  `itertools`' `unique` and `sorted`, which the vocabulary is built with.
- `src/vocab.rs`: the vocabulary (sorted distinct tokens, then the
  `<|endoftext|>` and `<|unk|>` markers) and its id lookups.
- `src/tokenizer.rs`: encoding text to ids and decoding ids to tokens, with
  the round-trip laws.
- `src/tensor.rs`: the shape arithmetic of tensors and the compute-graph
  operations.
- `app/`: the program that prints the vocabulary of a corpus or downloads
  the corpus, and the floating-point tensors with their gradients.
