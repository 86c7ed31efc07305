# rap

The verified core of a Rust analysis platform that looks for memory bugs
(use after free, double free, dangling pointers), traces unsafe code, and
checks the contracts of unsafe APIs.

The analyses read the compiler's mid-level IR; here they work on a model of
what they read of it (`mir_model`: places, assignments, calls, drops,
switches, blocks; `ty_kind`, `ty_layout`: types), and every function of the
library carries a contract that Verus proves.

## Layout

- `src/` — the library, every function of it verified:
  - `value_graph`, `alias`, `mop_check` — the alias graph of a function body
    and the path-sensitive alias analysis (MOP) over it;
  - `safedrop_graph`, `safedrop_check` — the drop analysis: liveness of values,
    double free, use after free and dangling pointer reports;
  - `corner`, `ty_kind` — the types and functions the drop analysis treats
    specially;
  - `bv_term`, `intra_flow` — the intra-procedural ownership flow analysis
    (leak detection): the ownership of every local is a bit vector, and each
    statement adds constraints over fresh variables, kept as terms for a
    solver;
  - `ownership`, `ty_layout`, `heap_item` — ownership layouts of types and the
    heap-item queries;
  - `abstract_state`, `state_lattice`, `contract`, `inter_record`,
    `body_visitor` — abstract states of pointers, their lattices, and the
    contracts of unsafe APIs;
  - `isolation`, `dot`, `call_graph`, `call_report`, `order` — the unsafety isolation and
    propagation graphs, Graphviz output, call graphs, block orders;
  - `args`, `cargo_rap`, `callback`, `kinds`, `text` — command-line handling of
    the cargo subcommand and the analyzer, and string helpers.
- `tests/` — tests of the library on concrete values.
- `app/main.rs` — the `cargo rap` subcommand: argument and environment
  reading, `cargo metadata`, running `cargo check`, `rustc` and the analyzer,
  and logging.
