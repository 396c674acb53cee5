# aho-corasick-etna

Property functions for a multi-pattern byte searcher, and the searcher
itself, verified with Verus.

- `src/semantics.rs` — the model: which match a search reports from a given
  offset under standard, leftmost-first and leftmost-longest semantics, and
  the non-overlapping matches an iteration yields (including how an empty
  match right after a match is skipped).
- `src/automaton.rs` — `AhoCorasick` and its builder. Searches scan the
  haystack directly; with the prefilter on, offsets at which no pattern can
  begin are skipped. Both ways are proved to report exactly the matches of
  the model, so the prefilter never changes a result.
- `src/replace.rs` — `replace_all`, which skips any match that would split a
  UTF-8 character; its output is specified byte for byte.
- `src/etna.rs` — the two property functions, the verdict conversions and
  the fixed witness inputs.
- `src/generate.rs` — building pattern sets and haystacks from drawn values,
  single-point mutations, and the shrinker of the parity property.
- `src/runner.rs` — run metrics, tool and property selection, the case
  budget, and the one-line JSON report.
- `src/laws.rs` — properties across functions: prefilter parity,
  leftmost-first shadowing, skipped split matches, verdict conversions,
  shrink candidates, metrics.
- `app/` — the workload runner and the fault-localization driver, which
  draw random inputs with proptest, quickcheck, crabcheck and rand.
