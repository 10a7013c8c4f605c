# dustbunny

A terminal disk-usage explorer: it scans a directory, shows the largest
space consumers on a radial map beside a ranked list, and lets you drill
through the tree from the keyboard. A `--summary` mode prints a plain
report instead.

The library under `src/` is verified with Verus; `app/` is the program
around it.

## Layout

- `src/model.rs`: the scanned tree (an arena of nodes), display order of
  children, item counts, breadcrumbs and the size format.
- `src/scanner.rs`: building the tree from what reading the disk gave, and
  putting every level in display order.
- `src/dust.rs`: a second scanner model that counts space on disk and drops
  repeated hard links.
- `src/app.rs`: the explorer's state and what each key does.
- `src/ui.rs`: the cell canvas, the frame (header, map, sidebar, status
  bar, help) and its ANSI text, and the summary report.
- `src/splash.rs`: the animated splash screen and its pacing.
- `src/screenshot.rs`: reading ANSI output back into cells and drawing them
  as an SVG picture.
- `src/terminal.rs`, `src/cli.rs`: key decoding, terminal size, terminal
  state, and the command line.
- `src/text.rs`, `src/order.rs`, `src/seqs.rs`, `src/path.rs`: text,
  ordering, sequence and path helpers.
- `src/demo.rs`: a simulated disk for pictures.

`app/` holds `main`, raw terminal input and output, disk access, the
scanning threads, and the disk map's floating-point geometry.
