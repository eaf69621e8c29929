# rusize

A multi-threaded disk space analyzer: it scans a directory (or every disk),
builds the tree of folder sizes, and writes it as a CSV, JSON or text report;
a text report can be opened in an interactive HTML page, and a terminal
explorer browses the tree drawer by drawer.

The library under `src/` is verified with Verus:

- `models/dir_node.rs`, `scanner.rs`: the folder trees of the reports and of
  the explorer, their ordering by size (with its laws), the assembly of a
  scanned folder from what its entries hold, and (`lib.rs`) the folders a
  scanned root shows, at least the minimum size at every depth.
- `services/report.rs`: the CSV rows, the JSON tree and the text tree.
- `services/gui.rs`: reading a text report back into a tree, and answering
  the HTML page's requests; `services/round_trip.rs`: what is read back from
  a report that the library wrote.
- `display.rs`: the explorer as a state machine from key presses, mouse
  events and scan results to the next state and the scans to start;
  `display/rows.rs`: what a frame keeps of the drawer list, and toggling a
  drawer twice.
- `utils.rs`: sizes written as megabytes or gigabytes with two decimals,
  exactly as the floating-point formatting rounds them.
- `cli.rs`, `chars.rs`, `text.rs`: the GUI mode's decision, the character
  sets, and string helpers.

`app/` holds the program around it: argument parsing, reading directories
and disks, writing report files, the local web server, and the terminal
drawing loop.
