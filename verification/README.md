# sovereign_os

Verified building blocks of a sovereign AI workstation: the allocators,
parsers, rankers and rule checkers that the workstation's services are made
of, each stated as a contract and proved with Verus.

## Layout

- `src/` — the library, every function of it verified. Each module
  gives its data a mathematical model (a view or a spec function), states
  what every public function returns or changes over that model, and proves
  it. Properties that relate several functions (what a read gives back of a
  write, what one call undoes of another, what every operation keeps) stand
  as public proof functions named `law_*`.
  - Serving: `paged_kv` (copy-on-write KV-cache blocks), `prefix_cache`
    (token trie), `rendezvous_hash`, `p2c_balance`, `retry`.
  - Text: `regex_syntax`, `regex_nfa`, `thompson`, `nfa_walk` (a stepped
    regex engine proved against a grammar and a language semantics),
    `regex_constrain` (constrained decoding), `pii_redact`, `readability`,
    `retrieval`, `rerank`, `prompt_*`.
  - Policy and catalogs: `policy_*`, `profile_bundles`, `provider_catalog`,
    `execution_mode`, `resource_control`, `pressure_*`, `precision_profile`.
  - Replay: `replay_ledger` (hash-chained log), `replay_cursor`,
    `replay_bookmark_set`, `replay_export_bundle`, `replay_playback_rate`.
  - Hardware: `pcie` (slot map, lane-sharing rules, advisory).
  - Models: `quant_model`, `product_quantization`, `rmsnorm`, `pagerank`,
    `reservoir`, `repetition_penalty`, `sorting` (the integer parts:
    shapes, plans, graph structure, seeds and orderings).
- `tests/` — executable tests of the library on concrete values.
- `app/` — the ordinary Rust around it: command-line tools, JSON forms of the
  library's types, and the floating-point numerics (BM25 weighting, PageRank
  iteration, scoring) that take the library's verified integer results.

## Trust

Everything in `src/` is proved by Verus except a few wrappers of `std`
character, string and map functions (Unicode classes, lowercasing, map
lookups), each documented where it is declared with what its contract
assumes.
