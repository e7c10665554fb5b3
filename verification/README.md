# dai

Local documentation for you and your agents: DevDocs and Dash/Zeal docsets,
markdown docs generated from `llms.txt` files, repositories, folders and
Context7, code snippets kept as markdown files, and a project scan that maps
a codebase's dependencies to the docsets that cover them.

The library in `src/` is verified with Verus: every public function states
in its contract what it returns (where the disk or the clock decides, what
holds of every answer they can give), and the laws the library keeps (paths never
leave their root, windows cover a page, the body of a rendered snippet file
splits back into its language, code and notes, generated page names are
distinct, a project's dependencies are each reported once, ...) are proved
as lemmas or as postconditions. The frontmatter of a snippet file is YAML
read outside the library, so its round trip is not part of those proofs.

- `src/text.rs`, `src/paths.rs`, `src/sorted.rs`: strings, `/`-separated
  paths and sorted lists as sequences, with their specifications.
- `src/dash.rs`, `src/devdocs.rs`: the two docset sources: ids, portable
  archive paths, safe resolution of files below a docset root, URLs.
- `src/normalize.rs`, `src/markdown.rs`: HTML to markdown, chunking by
  heading, MDX cleanup, section entries.
- `src/library.rs`, `src/index.rs`, `src/store.rs`: the catalog, what an
  install stores and indexes, search plans and hits, windows over pages.
- `src/generate.rs`: markdown docsets from `llms.txt`, repositories, folders
  and Context7.
- `src/snippets.rs`: snippet files (render, split, validate) and the
  in-memory mirror of the snippets folder.
- `src/manifests.rs`, `src/project.rs`: manifest texts (TOML, JSON) to
  dependencies, and dependencies to docsets.
- `src/daemon.rs`: the daemon's answers, tokens, ports, progress and the
  page viewer.

`app/` is the command line and the I/O around the library: downloads,
SQLite, the tantivy index, the file system and YAML/TOML/JSON reading.
