# lighthouse_core

The parts of a beacon node that decide things, verified with Verus:

- `summaries_dag`, `migration_schema_v24`, `persisted_beacon_chain`: the graphs of hot state and block
  summaries, the migration that rewrites the summaries, and the record of the chain. What holds of
  the graphs as a whole is in `summaries_dag_laws` and `descendant_laws`.
- `custody`, `globals`: how many columns a node custodies and samples, and what it knows of its peers.
- `sync`: requests for blocks, blobs and custody columns, by root and by range, the peers they go to,
  and how responses are put together.
- `inclusion_list_cache`, `inclusion_list_duty`, `inclusion_list_service`: inclusion lists, from the
  duty to produce one to the transactions they ask for.
- `database_manager`: what the database tool decides and reports.

`src/` holds the verified library. It works on plain values: peers and large network objects are
represented by integers, and time is passed in. `app/` holds what talks to databases, channels, clocks
and the command line. `tests/` runs the library.

Calls into other crates stand behind a few small functions whose contracts are believed: the list with
a limit of `ssz_types` (in `custody`), the hash map of `fnv` (in `fnv_map`), `hex::encode` (in
`strings`), SSZ encoding and decoding (in `persisted_beacon_chain` and `migration_schema_v24`) and
`rand::random` (in `sync::peer_choice`).
