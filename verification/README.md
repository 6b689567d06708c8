# laputa — vault indexing and migration core

The back end of a Markdown vault application keeps a qmd search index of the
vault and migrates old vault layouts. This crate holds the decisions of that
back end, written in Verus and proved against their contracts; the small
`app/` crate around it spawns processes, walks and rewrites files, and keeps
the process-wide qmd cache.

Layout of `src/`:

- `text.rs` — text as `Seq<char>`: whitespace trimming, lines as `str::lines`
  splits them, occurrences, `usize` parsing, decimal rendering, replacing.
- `path.rs` — Unix path arithmetic: last component, stem, extension, joining,
  and path equality by components.
- `status.rs` — reading `qmd status` for one vault; the collection name.
- `tasks.rs` — collection check, incremental update and full index as state
  machines: the caller runs the command a step asks for and reports back.
- `indexing.rs` — the qmd binary, its cache, and where to look for it.
- `migration.rs` — rewriting the legacy `is_a` frontmatter key into `type`.
- `flat.rs` — moving notes to the vault root: which notes move, destinations,
  system folders, the tally of moves and failures, wikilink rewriting, titles.
