# papagan

Fast, small-binary language detection: a sorted top-frequency dictionary
for common words, character trigrams for the rest.

The library under `src/` is written in Verus and verified. It holds
everything that decides or computes on integers and text:

- `lang` — the supported languages and their ISO 639-1 codes;
- `text`, `tokenize`, `lang_detect` — string helpers and the two tokenizers
  (ASCII fast path and UAX #29 path);
- `dict` — dictionary lookup by binary search over a sorted table;
- `ngram` — boundary-padded trigram extraction;
- `detector`, `score`, `parallel` — detector configuration, the per-word
  stage decision, batch routing and order-preserving parallel maps;
- `bindings` — option parsing and shared handles used by the Node and Python
  bindings;
- `corpus`, `training`, `ranking` — the offline data tooling: corpus
  parsing, deterministic sampling and shuffling, fixture formats, weighted
  trigram counts and the top-K trigram table.

`app/` is ordinary Rust around the library: the `xtask` command line
(downloads, archives, files), the floating-point scoring and aggregation,
and the Node (napi) and Python (pyo3) bindings. `tests/` exercises the
library through its public API.
