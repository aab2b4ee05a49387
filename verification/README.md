# space

Disk usage explained in human terms: the storage that matters, what is
using it, and which mounts are merely operating-system machinery.

The library in `src/` is written in Verus and proved against its
contracts:

- `platform` — the mount table of Linux (`/proc/self/mountinfo`, with its
  escapes) and of macOS (the mount table enriched with the APFS container
  layout that `diskutil apfs list -plist` describes), and the dispatch
  between them;
- `storage::topology` — hiding virtual and derived mounts, grouping views
  of the same backing storage, naming and ordering the volumes, and telling
  a container environment from a machine;
- `classify`, `scan` — the well-known locations, the volume each belongs to
  (the longest mount prefix), the categories they become, and the tally of a
  directory walk;
- `output::terminal` — the dashboard: byte counts, usage bars and colors,
  category groups, the footer and the container warning; `output::fit` and
  `output::glyphs` prove that no line exceeds the width and that a dumb
  terminal gets plain ASCII;
- `explain` — what a hidden mount is and why it is not a disk;
- `cli`, `app` — the flags and what `space` answers for them, from the
  discovered mounts through normalizing and scanning to the output;
- `text`, `path`, `lex`, `order` — the text, path, number and ordering
  primitives the rest is stated in;
- `binary64` — the double-precision arithmetic the dashboard's numbers go
  through (byte counts in units, percentages, bar cells, color thresholds),
  done exactly on whole numbers: each result is the double nearest to the
  exact one, ties to even, and one decimal is shown as the double's own
  value rounds.

`app/` is the command itself: argument parsing with clap, reading the
environment and the mount table, `statvfs` and `getmntinfo`, running
`diskutil`, walking directories in parallel with rayon, and the JSON
output with serde.
