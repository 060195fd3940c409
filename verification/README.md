# HTTP Credential Broker

A small local HTTP proxy for trusted clients that call named upstream APIs
without seeing the upstream credentials. Requests go to
`/proxy/{service}/...`; the service must be configured, the method and path
must be allowed, the caller's `Authorization` and `Proxy-Authorization` are
stripped by default, and the configured credentials are injected by the
broker.

## Layout

- `src/` — the library, verified with Verus:
  - `config.rs`: the raw configuration, every check it must pass, and the
    resolved per-service configuration; laws on what a resolved
    configuration satisfies.
  - `routing.rs`: routing of request paths to services, forward-path and
    service-name checks, segment-aware prefix matching.
  - `request.rs`: the decision taken for each request (answer or forward)
    and the rewriting of forwarded headers, with their laws.
  - `env.rs`: the environment snapshot in which secrets are looked up.
  - `error.rs`: the broker's error type.
  - `outside.rs`: the calls into `http`, `percent-encoding` and `base64`,
    each behind a trusted function whose contract states what it does.
  - `seqs.rs`, `text.rs`: sequence and character helpers with their
    specifications.
- `app/` — the program: command line, TOML file reading (serde), the hyper
  server and the upstream client, which carry out the library's decisions.
- `tests/` — tests of the library.
