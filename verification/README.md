# modula

Extraction of a language-neutral module and dependency graph from a code base:
crates, modules, items and weighted references between items, with each item's
public-API flag. The graph feeds a modularity score (how well the declared
module tree matches the actual dependencies).

The library in `src/` is written in Verus: its functions carry contracts and
are verified, and the properties the graph is promised to have are stated and
proved as lemmas (`law_*`). The exceptions are nine small trusted wrappers
(`#[verifier::external_body]`), each of which makes one call into an outside
crate or std and whose contract is believed, not proved: `decode_scip`
(protobuf), `parse_descriptors` (scip), `parse_declarations` (oxc),
`top_level_array_len` (serde_json), `gunzip_bytes` (flate2), `tar_entries`
(tar), `csv_rows` (csv), `file_name_of` and `push_char` (std).
Where a result takes more than a few lines to describe, the contract names it
(`pub uninterp spec fn`) and the verified code is proved over that name.

## Layout

- `src/ir.rs`: the graph itself, and the public-API computation.
- `src/builder.rs`: the builder that frontends populate by symbol keys, with
  edges resolved and summed when the graph is finished.
- `src/extract_api.rs`: languages, projects, extraction requests, the
  `Frontend` and `Extractor` traits and the registry that dispatches to them.
- `src/scip.rs`, `src/scip_lower.rs`: decoding a SCIP index and lowering its
  symbols and occurrences into the graph.
- `src/indexers.rs`: detecting a project's language and the command of the
  SCIP indexer that indexes it.
- `src/ts.rs`: the TypeScript and JavaScript frontend (declarations parsed with
  oxc).
- `src/ra.rs`, `src/ra_targets.rs`, `src/ra_builder.rs`: Rust extraction's
  naming rules, target selection and crate order, and the graph accumulated
  while the semantic analysis walks the crates, with `pub use` re-exports.
- `src/corpus.rs`, `src/rank.rs`: the corpus tooling's decisions (work lists,
  outcome statuses, labels and colour groups) and a verified sort.
- `src/dump.rs`: reading the crates.io database dump (gzip, tar, CSV) into the
  tables the work list joins.
- `src/paths.rs`, `src/text.rs`: path and string helpers.
- `tests/`: tests of the library on concrete values.
- `app/`: the `cargo modula` command line and the corpus tooling: file, process
  and network I/O, the database, plots and embeddings.
