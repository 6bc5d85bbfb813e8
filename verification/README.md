# lau-kintsugi

Break/repair ledgers: failures are recorded as breaks, repairs are attached to
them (golden when they carry more than seven tenths of gold), and the history
of every artifact is kept, one trail per iteration, in a registry.

Layout:

- `src/` — the verified library (Verus). `binary64` holds severities and gold
  contents as IEEE 754 bit patterns and decides comparisons and clamping on
  them; `records`, `trail`, `history` and `registry` hold the ledger, each type
  with a mathematical view, an invariant and exact contracts, and the laws of
  the ledger as proof functions.
- `app/` — serialisable copies of the types (serde) with conversions both ways,
  and everything that adds, divides or formats gold: totals, repair rates, the
  kintsugi test, value multipliers, summaries and registry statistics.
- `tests/` — the ledger's scenarios and checks of the bit-pattern arithmetic
  against `f64`.
