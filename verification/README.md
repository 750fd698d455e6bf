# manga_parser_core

Prepares manga downloaded as one `.zip` archive per chapter for Kindle Comic
Converter: the chapters are unpacked in natural order (`ch_2` before
`ch_10`), every page gets one continuous five-digit number, and all pages end
up in a single flat folder, an optional cover first.

The crate is written in Verus. `src/` holds the decisions and is verified:

- `text`, `key`, `order`, `natural_sort` — the natural order of names and
  paths (digit runs by value, numbers before text, case ignored), with the
  laws that make it a total preorder;
- `paths` — paths as component names, extensions, parent, join, prefix;
- `archive` — picking archives and images out of a listing, stably sorted;
- `pipeline` — the assembly as a state machine: each step gets the answer to
  the last request and gives the events to report and the next request;
- `session` — one assembly at a time;
- `laws` — what holds of every run and of the order as a whole.

`app/` is the program side: it carries out the requests on the real file
system (`walkdir`, `zip`, `tempfile`), shares a session between commands, and
gives the values serde and `Display`.
