# llm-api-router

An OpenAI-compatible router for LLM APIs with priority failover between
provider groups, passive per-model health tracking and API-key admission.

- `src/` — the library, verified with Verus:
  - `config` — configuration types, defaults, `${VAR}` references, group lookup;
  - `health` — health tracking per `(group, provider, model)` with per-group
    thresholds and recovery timeouts, and its laws;
  - `routing` — priority order of a group's providers and the failover
    decisions (which provider and model to try next, what a failure changes);
  - `provider` — message data, the text of a message content, the
    OpenAI protocol pieces (addresses, credentials, error classification)
    and the server-sent-event decoder;
  - `server` — API-key admission and the model catalogue;
  - `error` — errors and their HTTP statuses;
  - `text` — character-sequence helpers.
- `app/` — the HTTP server (axum), downstream calls (reqwest), JSON and YAML
  shapes (serde), configuration loading and `main`.
- `tests/` — tests of the library.

The request `model` names a group; providers are tried in ascending priority,
each with the first of its models that passes a health check.
