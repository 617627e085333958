# pi-source-extractor

A verified extractor of functions from C++ sources, for coding agents. It finds complete function,
constructor, operator and template ranges, with one-based inclusive lines, their scopes, their
numbers of arguments and the calls and constructions in their bodies, and it lists what the parser
could not read.

Tree-sitter parses; the policy around it is written in Verus and proved. This is a syntax
extractor, not a compiler.

## Layout

- `src/` is the library. What is trusted of tree-sitter stands in `cpp`, of rayon and num_cpus in
  `pool` and `batch`, of the standard library in `text` and `protocol`; everything else is proved.
  - `syntax`: a syntax tree as plain values in preorder; `cpp`: the tree of a C++ text.
  - `text`, `names`, `ranges`, `blanks`: qualified names, tables, and texts with annotations
    blanked out.
  - `metadata`, `declarators`, `scopes`: scopes, declared names, and the index of a file.
  - `bodies`, `references`, `lookup`, `units`: the code of a function, its references, and which of
    them are known.
  - `signatures`, `recovery`, `extraction`: what becomes of each function of a text.
  - `batch`, `pool`, `protocol`: batches of files on several threads, and the worker's decisions.
  - `laws`, `name_laws`: what holds of every extraction, of every batch and of every name.
  - `recovery_laws`, `subtree_laws`, `pairing_laws`, `clean_text_laws`: what an annotated text and the
    text without its annotations have in common.
- `app/` is the worker: JSON lines in, JSON lines out.
- `tests/` runs the library on C++ sources.

## Protocol

Each request is one JSON line with an integer `id` and `files: [{path, source}]`. Each response has
the same `id`, ordered `results`, `parallel` and `workerThreads`. A file that fails has an `error`
in place of an `extraction`; a request that fails has an `error` of its own. Paths are labels and
are never opened. `--threads` takes from 1 to 32; without it there are as many threads as can run at
once, but no more than four.

Limits: 64 files per request, 4 MiB per source, 16 MiB per request, 4096 bytes per path label.
Batches below 64 KiB, and single files, are worked on by one thread. Output order is input order.
