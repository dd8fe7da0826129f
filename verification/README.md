# xfingine

The computation layer behind a set of personal-finance tools, written in Verus
so that its integer and text logic carries machine-checked contracts.

## Layout

- `src/` — the verified library.
  - `categorizer/` — rule matching of bank narrations (first matching rule
    wins, case-insensitive) and derivation of new rules from hand-mapped
    transactions (tokens exclusive to one group, best token per group, rules
    sorted by category then merchant).
  - `emi/` — calendar months (`YearMonth`: construction, advancing, `"YYYY-MM"`
    text and its parser), tenure checks, the "still owed after this row"
    columns, the per-year breakdown of a schedule and its reconciliation with
    the schedule's totals.
  - `release.rs` — version bumps in a workspace manifest and the header of a
    new changelog section.
  - `numbers.rs`, `text.rs` — decimal digits and character-level helpers.
- `app/` — the unverified shell: floating-point annuity arithmetic, JSON,
  Python and WebAssembly bindings, and the release command's file and process
  work.
- `tests/` — executable tests of the library.
