# fixlog

Inspect FIX protocol log files: detect their layout, parse and index their
messages, filter them with a small query language, and summarise sessions,
order lifecycles, fills and message rates.

The library in `src/` is written in Verus; every function states its
behaviour in `requires`/`ensures` clauses over mathematical models
(`Seq`, `Map`, spec functions) and is proved against them. The calls into
other crates (`memchr`, `smallvec`, `regex`) and a few standard-library
conversions sit behind small trusted wrappers whose contracts are stated in
their doc comments.

Layout:

- `src/format.rs` — sniffing the layout of a log (separator, line prefix,
  line ending, encoding, message boundaries).
- `src/parser.rs`, `src/taglist.rs`, `src/bytes.rs` — the tokenizer and the
  stream of messages of a buffer.
- `src/dict/` — the FIX dictionaries and the resolution of tags and values
  along a chain of versions. The bundled tables are a subset of the
  published dictionaries (session fields, FIXT.1.1 transport fields and
  about forty order, execution and market-data fields, eighteen message
  types); other tags resolve to no name. `src/dict/mod.rs` lists the tags
  covered.
- `src/index/` — the offset index, its secondary `(tag, value) → ordinals`
  map, incremental appends and the pieces of a parallel build.
- `src/query/` — the filter language: tokenizer, parser, evaluation.
- `src/analysis/` — sessions, order timelines, consolidated fills, the
  SendingTime histogram, and their helpers.
- `src/render.rs`, `src/commands/` — everything the command-line tool
  prints, produced as bytes.
- `app/` — the command-line tool: arguments, files, stdin and stdout, the
  file watcher, the worker pool, and the floating-point figures of
  `orders consolidate`.
- `tests/` — tests of the library on concrete logs.

Laws proved over the library include: the index lists the messages of a
buffer in order and in bounds; its secondary map lists exactly the messages
holding each hot pair; appending to the index of a prefix gives the index of
the whole buffer; stitching the scans of chunks gives the index of one pass
when chunk boundaries resynchronise; every message lands in a histogram bin
or is counted as undated; a resent fill is counted once; each message
belongs to the session of its CompIDs; two log sources fed one after the
other handle the messages of the one source made of both, and a source
fed in chunks handles what it handles fed whole (while no kept bytes are
dropped); a filter scan
resumed where it stopped finds nothing more; parsers with the same
separator yield the same messages; each dictionary's field and message
counts are the sizes of its tables.
