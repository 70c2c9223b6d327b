# rootkitty

A disk usage analyzer: it scans directory trees, keeps the results in a database, and lets one
browse them, compare them and mark what can go.

The library under `src/` is verified with Verus. It holds what decides and computes:

- `walk`, `scanner`, `tally`, `demo`: how a tree is walked and measured, and how what is found is
  gathered into batches and progress reports
- `db`, `settings`, `report`, `cleanup`: how rows are read and written, what the settings are, what
  the commands print, and the cleanup script
- `ui`: the browser. `ui::state` says what a key does to its state, `ui::app` does it, `ui::events`
  takes in what was done for it, `ui::screens` makes its lines; `ui::tree` lists files,
  `ui::scan_list` orders scans, `ui::scan_tree` and `ui::treemap` lay out scans and sizes
- `text`, `bytes`, `paths`, `format`, `sort`, `time`: what these rest on

Modules whose names end in `_laws` state what holds of several functions together.

The program under `app/` is ordinary Rust around it: arguments, files, the database, threads and
the terminal. It looks at the disk when a walk asks for something and does what the browser asks
for; percentages and the ratios of a treemap are floating point numbers and are worked out there.
The database does its own sorting and summing, such as the totals of a scan that was broken off.

Calls to other crates from the library stand in `time` (chrono) and `paths` (shellexpand), each
behind a function whose contract says what is taken for granted.
