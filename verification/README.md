# delete_images

An interactive tool for a private Docker registry: it scans the registry,
shows how much space each repository takes (counting a layer shared by
several repositories once, for the first one), and helps to delete old tags,
with a suggestion of which ones can go.

The library under `src/` holds the logic, each function with a contract that
Verus proves:

- `text`: decimal rendering, whitespace trimming, splitting on `..`, parsing
  of unsigned numbers.
- `formats`: the human-readable size of a byte count (MB/GB, two decimals).
- `sorting`: stable sorting by an integer key.
- `registry`: the scanned data, grouping of tags by manifest digest, ordering
  of groups by creation time, creation dates, endpoint URLs.
- `sizes`: sizes per repository and totals, with deduplication of layers.
- `report`: how each layer counts in the size report.
- `main_menu`, `tags_menu`: what the menus show (each repository with its
  sizes, and the totals) and how they read a choice (option 999 always runs
  the garbage collection), which tag groups a selection removes, and the
  delete suggestion, which keeps the three newest releases, the two newest
  other images and every image younger than two weeks.
- `pattern`, `external`: the calls into regex, chrono and tabled.

`app/` is the program around it: HTTP requests, terminal input and output,
progress bars, and the floating-point size reports.
