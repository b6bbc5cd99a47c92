# spacetree

A disk-space analyzer whose core is verified with Verus: point it at a
folder or a whole drive and it builds the folder tree with exact subtree
sizes, answers listing and search queries over it, and renders a Markdown
report.

## Layout

- `src/` — the verified library.
  - `tree`, `csr`, `sort`, `flags`: the scan tree (children as contiguous
    id ranges, size rollup, paths, descendants, per-type totals) and the
    orderings used everywhere.
  - `walker`: what a directory entry contributes to the tree (symlinks
    listed but never followed, hard links counted once).
  - `ntfs`: the NTFS engine's parsing — boot sector, data runs, file
    records with their fixups, and rebuilding the tree from the record
    table.
  - `export`, `fmt`, `search`, `digest`, `dto`: the Markdown report, number
    formatting, name search, the assistant's text reports and the values
    handed to the interface.
  - `ai`: the assistant's prompt, history budget, the streamed-answer
    decoder, the tool dispatcher and the model picker's list.
  - `mounts`, `volumes`, `volume`, `settings`, `text`: volume listing,
    Windows path and drive rules, capacity and small text helpers.
- `app/` — the program around it: file-system and raw-volume I/O, the
  parallel walker's threads, HTTP and JSON, the treemap's floating-point
  layout, and a `scan` / `volumes` command line.
- `tests/` — tests of the library through its public interface.
