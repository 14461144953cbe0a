# rustspell-server

A multi-tenant spell-checking HTTP API over Hunspell dictionaries
(`spellbook`), with API keys, tenants, registered origins, quotas, per-IP
rate limiting of failed authentications and a usage rollup.

The decisions of the server live in a library whose behaviour is stated in
`requires` / `ensures` contracts and proved with Verus; the binary around it
does the I/O.

## Layout

- `src/` — the verified library.
  - `text` — characters, digits, trimming, ordering of texts.
  - `civil` — calendar days: `YYYY-MM-DD` printing and parsing.
  - `config` — environment settings, integer parsing, CIDR networks.
  - `cli` — flags and confirmation of `reset-platform-key`, and its output.
  - `error` — the error kinds and their RFC 7807 problem fields.
  - `store` — roles, key hashing and generation, and the in-memory key,
    tenant, origin and dictionary caches.
  - `auth` — the failure rate limiter and the request gates.
  - `engine` — dictionary loading, checking and tokenization.
  - `handlers` — request validation and the spell-check results.
  - `usage` — latency buckets, percentiles, reporting windows, the usage
    recorder and the aggregations behind `/usage/*`.
  - `dictionary` — download URLs, cache freshness and the retry policy.
- `app/` — the server binary: environment, database, HTTP, downloads,
  metrics, and the `reset-platform-key` command.
- `tests/` — tests of the library on concrete values.

The laws the library keeps (a revoked key never authenticates again,
rotation retires the old key, suspension shuts out only its tenant, the
quota never overshoots, percentiles never decrease with the rank, daily rows
count every request once, tokens are the maximal white-space-free runs, and
others) are public proof functions next to the code they speak of.
