# mdq

Query markdown documents by their YAML frontmatter, and render the
`dataview` query blocks embedded in a document.

The library is written in Verus: each public function states what it
returns in its `ensures`, over mathematical models of its data, and Verus
proves the code against it.

## Layout

- `src/json.rs`: JSON values (`Json`), their display text, JSON text read
  and written with `serde_json`, reading and setting object entries
  (ordered by key).
- `src/index.rs`: documents and the index; paging, filtering by verdicts,
  grouping by key text, tables of cells; which files are markdown.
- `src/tags.rs`: frontmatter tags, inline `#tags` (found with the `regex`
  crate), and their merge without repeats.
- `src/tasks.rs`: task list items (`- [ ]`, `- [x]`) and the `tasks`,
  `tasks_done`, `tasks_open` fields.
- `src/report.rs`: the JSON report of a run (`--json`).
- `src/output.rs`: result rows as text: a drawn table (`comfy-table`) for a
  terminal, CSV (`csv`) otherwise.
- `src/args.rs`: the command line's settings: counts, `key:header`
  columns, filters combined under `$and`.
- `src/dataview/query.rs`: the dataview query grammar
  (`LIST|TABLE|TASK [selection] [FROM] [WHERE] [SORT] [LIMIT]`), the plan
  of a query, its result and that result's markdown.
- `src/dataview/query/where_filter.rs`: the grammar of `WHERE` expressions.
- `src/dataview/transform.rs`: the query blocks of a document (found with
  `comrak`), and the document with them replaced by their results.
- `src/text.rs`: character classes and string scans shared by the parsers.
- `app/`: the `mdq` command: reading the command line, walking the
  directory, reading files, frontmatter parsing and key resolution,
  running queries on the index, and printing the library's texts.
- `tests/`: tests of the library.
