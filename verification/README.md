# rust_layout

Text layout in two steps, with every step verified by Verus:

- `prepare` normalises line endings and cuts a string into segments (words,
  collapsible or preserved spaces, tabs, zero-width breaks, soft hyphens, hard
  breaks), each measured by a `Measurer`.
- `layout_with_lines` breaks the segments greedily into lines no wider than a
  given width, cutting runs that are wider than a line into break units, and
  applies a few width-specific adjustments for particular scripts.
  `layout`, `layout_next_line` and `walk_line_ranges` are views of the same result.

Widths are integers in hundredths of a pixel.

Layout of `src/`:

- `text.rs`: character classes and string helpers.
- `measure.rs`: the `Measurer` trait, `SimpleMeasurer`, and unit widths.
- `prepare.rs`: segmentation, with its specification as folds over the input.
- `overlong.rs`: break units and the cutting of overlong runs.
- `layout.rs`: the line breaker as a state machine (`layout_step`, `layout_run`).
- `patches.rs`: width-specific adjustments of finished lines for a few kinds
  of text, in the width windows they were made for. At most one line is added
  or joined at a width, nothing is adjusted above 240px, lines are never
  joined in a text with a hard break, and where a window would let a narrower
  width give fewer lines, the adjustment is tied to the line breaker's count
  just above the window (see `adjustment`).
- `json.rs`: escaping line text for JSON, with its laws (no raw control
  characters, plain text unchanged, unescaping gives the input back).
- `laws.rs`, `segment_laws.rs`, `text_laws.rs`, `monotone_laws.rs`,
  `order_laws.rs`, `prewrap_laws.rs`: proved properties. Segmentation keeps or
  collapses whitespace as documented; layout keeps the text; every hard break
  ends a line and hard breaks force their count of lines; a narrower width never
  gives fewer lines (for a width above zero, segments no wider than their break
  units, and a split that meets a last line of two characters or more); line
  ranges rise in order; the line breaker fills lines greedily and uses the
  fewest lines, and above 240px so does the layout; pre-wrap text whose
  paragraphs fit lays out one line per paragraph; cut runs and break units
  keep their text, and marks stay with their base.

`app/` holds the command-line benchmark and JSON dump.
