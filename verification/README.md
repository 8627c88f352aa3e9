# seine_engine

Verified components of a forward-chaining rule engine for a subset of
the Drools rule language: the value semantics, the constraint and
interval logic, the staging and firing-order machinery, the agenda
decisions, truth-maintenance keys, accumulate contexts and event
lifetimes. The rule compiler, the node network and the fire loop that
drive these components are not part of this crate. Every function under
`src/` carries a Verus contract and is proved against it.

- `value`, `decimal`, `order`, `render`: scalar values, exact fixed-point
  decimals (parsing, rescaling with half-away-from-zero rounding,
  precision checks, normalization, numeric order), and text rendering.
- `compare`: constraint comparison, compile-time type checks of
  comparisons with their exact error texts, assignability and coercion
  into declared field types.
- `keys`, `canon`: value-equality keys of logically inserted facts and the
  canonical sort keys of scalars.
- `gexpr`, `store`: inline constraint groups under three-valued logic over
  the field values in working memory. Regex `matches` needs a pattern
  matcher that is not part of this crate; only the three-valued outcome
  around the matcher's verdict is here.
- `allen`: the Allen interval relations of the event layer.
- `accumulate`: accumulate contexts (apply, in-place reverse, result).
- `agenda`: which item pops next (salience descending, then declaration
  index ascending), which activation of a rule fires, the sticky salience
  of dynamic-salience items, and the fire limit.
- `arith`: Java `long` arithmetic of right-hand sides and integer
  salience.
- `expiry`: event expiration deadlines and their classes, time and length
  window admission, and the pseudo-clock with its deadline queue.
- `tms`: truth-maintenance equality keys: logical-insert merging, support
  removal, the justification views and `why`.
- `staged`, `rulenet`, `window_folds`: staged insert/update/delete lists,
  the per-rule window queue with its folds, and the peer merge into a
  terminal's staging.
- `shadow_bf`, `shadow_ex`, `shadow_pn`, `shadow_px`: the firing-order
  shadows of gated `not`/`exists` rules over event and plain blockers.

Laws that span several calls are public proof functions named `law_*`.

`app/` holds the double layer that the core does not hold: values that may
be IEEE doubles, their comparisons, coercions, keys, accumulations,
arithmetic and salience, and the display of engine errors.
