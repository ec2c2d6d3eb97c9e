# strata_index

Builds and queries a knowledge graph of a code base: its code, its API contracts, its
infrastructure, its data and its documents, for one repository or for an estate of several.

`src/` is the library. Every item of it is verified with Verus against the contract that stands
above its body, and the laws that relate several functions are public proof functions whose names
start with `law_`. The library works on plain values.

- `model`: nodes, edges and the graph. Every edge carries how it was learned and a confidence
  that lies in the band of that provenance.
- `code_plane`, `scip_merge`, `differential`, `accuracy`: calls and imports, how they resolve, and
  how good the guesses are. `binary` holds the arithmetic of the measures.
- `contract`, `infra`, `data`, `knowledge`: the other planes of the graph.
- `index`, `readings`, `walk`, `hashing`, `stamp`, `resolve_mode`, `tsconfig`: indexing one
  repository.
- `manifest`, `estate`, `estate_link`, `estate_marker`: several repositories as one estate.
- `changes`, `blast`, `rename`, `docs_index`: what is asked of the graph.

`app/` is ordinary Rust around it: walking directories, reading and writing files, running `git`
and the SCIP indexer, and the lexical index of documents. What the other crates of the workspace
do, it asks of the two traits in `app/services.rs`.
