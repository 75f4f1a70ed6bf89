# Log viewer engine

A library for viewing very large log files, verified with Verus, and a small
desktop program around it.

The library (`src/`) works on plain values only. It

- indexes the lines of a file without copying them (`loader`, `types`),
- detects the format of a log and finds timestamps and levels in plain text,
  syslog, Android logcat and newline-delimited JSON (`parser`),
- writes and reads a sidecar cache for parsed indexes (`cache`, `open`),
- searches the rows of an index in batches and collects the rows found in a
  compressed bitmap (`search`),
- keeps the state of the viewer and takes its decisions (`viewer`, `recent`,
  `log_panel`).

`text`, `chars`, `numbers` and `paths` hold what these share: byte classes and
searching, trimming and splitting of text, reading and writing of numbers, and
what the text of a path says.

Every function states in its contract what it returns or changes. Of the
progress function that indexing is handed, the contract states that it is called
with every report that `loader::reports` lists and with nothing else; in which
order, and that no call is made twice, is not stated. Properties that span
several functions are public proof functions at the end of each module, under
"Laws".

What the library takes on trust is marked where it stands: a few functions of
`std`, `memchr`, `rayon` and `roaring`, each with the facts that are relied on.

The program (`app/`) maps files into memory, reads and writes the cache and the
list of recent files, runs the worker threads and draws the window with `egui`.
