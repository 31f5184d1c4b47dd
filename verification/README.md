# aegiuw_core

The decision logic of a local agent that forks outbound TLS connections
between a native path and an isolation path: it peeks the Server Name
Indication of a ClientHello, scores the host with local heuristics, and
folds the evidence into a verdict. Everything in `src/` is verified with
Verus; `app/` is the thin command-line layer around it.

## Layout

- `src/sni/` — the ClientHello parser: bounds-checked cursor, record
  reassembly, the extension walk, the `server_name` hostname checks, ALPN and
  TLS version classification, and `extract_sni`.
- `src/risk.rs` — risk levels, signals and the verdict policy.
- `src/heuristics/` — launch-context classification and Levenshtein
  typosquat detection.
- `src/pipeline.rs` — the fork decision for one connection (`assess`).
- `src/fixture.rs` — builders for minimal record-framed ClientHellos.
- `src/fingerprint.rs` — GREASE detection and the JA3 fingerprint.
- `src/inspect.rs` — hex decoding and the outcome histogram of a replay.
- `src/peek.rs` — the host-only view of the SNI peek.
- `src/text.rs` — byte and string helpers shared by the modules above.
- `app/` — `daemon` demo, `inspect` and `replay` subcommands, and
  serializable copies of the verdict types.

The outside calls are few and sit behind small trusted wrappers: the MD5
digest (`md-5`), the dot scan of a hostname (`memchr`), and from std the UTF-8
check, the IP-literal parse and `str::trim`.
