# loupe

The logic of a small web browser for Milvus collections, verified with Verus.

- `src/` is the library. `json` models the JSON values that the Milvus REST
  API returns and the handlers answer; `number` and `order` define the order in
  which the grid sorts values; `sort` sorts stably; `index` builds, pages and
  caches sort indexes; `milvus` describes the REST calls and decodes their
  answers; `session` handles sign-in sessions; `config` resolves the settings;
  `api` shapes the HTTP answers; `text` and `keyed` are helpers.
- `app/` is the HTTP server (axum, tokio, reqwest): it performs the I/O and
  asks the library for every decision.
- `tests/` exercises the library on concrete values.
