# rustblog_core

The routing core of a blog server, written in Verus: route tables, tries and radix trees of
path patterns (`/users/{id}`, `/static/*`), caches, string and byte helpers, shard managers
with load counters, route validation and registries, and the data models of the blog.
Each function states what it does in `requires` / `ensures` over mathematical models
(`Seq`, `Map`, views), and Verus proves it.

Layout:

- `src/` — the verified library, one module per area (`route_table`, `route_radix_tree`,
  `route_trie`, `segment_tree` (the node shared by the trie and the radix tree),
  `cache_optimized`, `dynamic_sharding`, `dynamic_route_table`, `papaya_route_table`,
  `cache`, `lockfree_cache`, `route_matcher`, `cow_optimized`, `string_optimized`,
  `bytes_optimized`, `route_validator`, `route_registry`, `models`, `geoip` (how a decoded
  address record becomes a location), `wallpaper` (the fields of an upload form, gathered
  and checked), `error`, `text`, ...).
  Calls into `serde_json`, `base64`, `bytes`, `papaya` and std's clock and hasher go through
  small trusted wrappers whose doc comments say what is assumed of them.
- `tests/` — the tests, run against the compiled library.
- `app/` — what does not belong in the verified library: process-wide state (the location
  cache among it), the floating-point rates, load scores and rebalancing decisions, and the serde forms of the
  library's data types.
