# rdirstat

A disk usage analyzer. The library (`src/`) holds the logic, each
function with a proved contract:

- `tree`: entries, nodes that own their children, and the stable sort of
  every level by decreasing size.
- `scanner`: the scan configuration, the bookkeeping of a running walk
  (each device/inode kept once, when to stop, progress throttling), and
  the assembly of walked entries into a tree with cumulative sizes and
  totals, paths matched component by component.
- `output::formatters`: the JSON summary and the indented tree text.
- `ui::tui`: the state of the terminal browser and its answers to keys and
  scan updates; `ui::components`: the text of its panels.
- `order`, `text`, `paths`: stable merge sort of positions, text building,
  and the parts of a path that the library reads.

`app/` is the program around it: command line, the file-system walk on the
`ignore` crate's threads, the scan channel, and drawing with `ratatui`.
