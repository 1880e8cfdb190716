# subcode

The verified core of a terminal coding agent and of the codecs it ships context
with. Every function under `src/` carries a contract that Verus checks; the laws
that tie functions together are public proof functions beside them.

- Codecs: `gf256`, `linear`, `fountain`, `bulk`, `rs`, `hierarchical`,
  `homohash`, `zeckendorf`, `compress`, `delta`.
- Placement and flow: `cayley`, `placement`, `fib_hash`, `fib_backoff`.
- Front end: `text`, `paths`, `styled`, `theme`, `markdown`, `diff`, `fit`,
  `complete`, `menu`, `view`, `turn`, `screen`, `chrome`, `input`, `report`,
  `app`, `pointer`, `slash`, `keys`.

The front end is a state machine: `App` takes events, keys, pastes and mouse
movements and answers with actions for its host. `app/` is that host: it owns the
terminal, the files and the clock, paints with ratatui, and works out what is
measured in floating point. Calls into `similar`, `serde_json`, `ratatui` and
`zstd` that only compute stand in `src/` behind small trusted wrappers, each with
a doc comment that says what it claims.
