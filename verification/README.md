# qeli — verified core

The logic of the qeli VPN that can be stated and proved, written in Verus.

- `src/crypto` — X25519 key pairs and the contributory check (`exchange`), the REALITY
  session-id token and short-id parsing (`reality`), and the trusted wrappers around
  `x25519-dalek`, `subtle`, `hkdf`/`sha2` and `chacha20poly1305` (`primitives`).
  The session-id token is ChaCha20-Poly1305, as the REALITY design it follows specifies
  (`ChaCha20-Poly1305(k, nonce, short_id ‖ unix_time)`); the cipher comes from the
  `chacha20poly1305` crate.
- `src/protocol/ctrl` — the in-tunnel control frames (MTU report, client info).
- `src/server` — the DNS proxy: message walkers, EDNS0 reply sizing and the blocklist
  (`dns`), the answer cache (`dns_cache`), and the per-query decisions of the resolver
  (`resolver`).
- `src/web` — masking and restoring secrets in the raw config editor (`config`, with its
  laws in `secret_laws`) and the guards of a config save (`save_guard`): hooks, repeated
  usernames, stored passwords kept from disk, and whether the panel needs a full restart.
- `src/text.rs` — UTF-8 and lowercase helpers shared by the above.
- `app/` — the unverified shell: the DNS proxy's sockets and serving loops, and what a
  build reports about itself.
- `tests/` — executable tests of the library.
