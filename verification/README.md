# agentplane

A verified core for an agent plane: what it keeps, and what it decides about it.

The library under `src/` holds the state of a plane in ordered tables, with one
tenant's name at the front of every key, and every operation on them as a
function with a contract.

| Module | What it holds |
|---|---|
| `table` | ordered tables, and what a walk over one gives |
| `row`, `text`, `domain`, `error` | records, text, the words of the domain, refusals |
| `journal`, `journal_laws` | chains of records, leases and epochs, seals and the log |
| `admissions` | one run per request |
| `cases`, `cases_laws` | cases, correlation, obligations |
| `events`, `events_laws` | inbound events, waits, dead letters |
| `batches` | items of a batch, its cursor and its census |
| `authority`, `quota` | standing authority, concurrency and spend |
| `memory` | governed memory: versions, derivation, erasure, holds |
| `tasks`, `timers`, `push`, `registry` | work for people, sleeping runs, notifications, manifests |
| `store` | the handle over a single node's tables |
| `postgres` | connecting to a shared database, and what it refuses |
| `postgres_journal`, `postgres_cases`, `postgres_events`, `postgres_batches`, `postgres_authority`, `postgres_memory` | what a shared database answers where a single node answers otherwise: its choices, refusals, locks and column bounds |
| `sweeper`, `sweeper_laws` | what a passing instant brings about, and in what order |
| `telemetry` | names that dashboards depend on |

The functions whose names begin with `law_` state what holds across operations.

`app/` is ordinary Rust around the library: it keeps the tables in a redb file
or in PostgreSQL, and performs what a sweep decides.

`tests/` runs the library on concrete values.
