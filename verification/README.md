# irongraph

Storage structures, graph algorithms and rebuildable indexes of a property graph, written in Verus: the
library is verified but for the small wrappers around other crates that the last paragraph speaks of, and
every public function states in its contract what it returns.

## Layout

- `src/persistent`, `src/shared.rs`: copy-on-write vectors, maps and arenas, and shared flat columns.
- `src/columns`: validity bitmaps, packed lists, string dictionaries and typed property columns.
- `src/csr.rs`, `src/adjacency.rs`: compressed adjacency with deltas, and frontier expansion.
- `src/algorithms`: traversal, least distances, components, cores, triangles and Louvain communities.
- `src/index`: scalar, text and vector indexes, their catalog, IVF-PQ planning, pages and search.
- `src/knowledge.rs`, `src/layers.rs`: record layers and the rules for Knowledge records.
- `src/gpu`: admission shapes, scratch accounting, the residency ledger and host memory.
- `app`: what needs floating point, serialization or a device.
- `tests`: scenarios on concrete values.

Calls into other crates and into parts of the standard library stand behind small wrappers whose
contracts are trusted; each says in its doc comment what it relies on.
