# custom_llm

Tokenisation for a small language model, verified with Verus.

- `src/strmap.rs` — `StrMap`, a string-keyed map that also walks its keys in insertion order.
- `src/text.rs` — character helpers: splitting lines into lowercased ASCII words, prefixes, lowercasing.
- `src/json.rs` — the two readings of JSON text that the library makes (object keys, string lists).
- `src/bpe.rs` — byte-pair vocabulary construction: character set, tokenisation by merging, pair counting, one merge step.
- `src/tokens.rs` — the token list (word ranking, prefixes, pieces), the token index, greedy word tokenisation with a cache, and decoding.
- `src/frontend.rs` — the pure parts of text generation: looking a token up by id, padding a prompt.
- `app/` — the command-line program: files, standard input, and the TorchScript model.
