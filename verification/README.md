# rayhunter

Verified core of rayhunter's cell tower analysis and TLS setup.

- `src/cell_tower_anomaly.rs` — the passive cell-site-simulator heuristic, as
  a state machine over ML1 measurements and SIB1 identities, with its step
  function stated over `AnalyzerView`.
- `src/anomaly_laws.rs` — properties of that heuristic across calls: each
  anomaly fires once, a new cell restarts the baseline, escalation happens
  exactly when both anomalies are active.
- `src/opencellid.rs` — the OpenCellID CSV index: parsing (lines, fields,
  std's number syntax) and canonical `"MCC-MNC"` lookup.
- `src/text.rs` — decimal text, and the syntax std's `u16`/`u32`/`f64`
  parsers accept.
- `src/tls.rs` — when the self-signed certificate is (re)generated and what
  it says.
- `app/` — key generation, certificate signing and files for the TLS
  listener, floating-point geometry, and event messages.
