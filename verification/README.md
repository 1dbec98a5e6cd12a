# clave-bar

The vertical tab bar of clave, a Zellij plugin that shows a fleet of coding
agents one row per conversation. This crate is its logic, verified with
Verus, and the thin Zellij shell around it.

## Layout

- `src/` — the verified library.
  - `model.rs`: the bar's state machine. Tab frames, pane manifests, store
    snapshots, OS probes, navigation, clicks, the collapse ledger, the bind
    leg and the width machine, each with a contract over `ModelView`.
  - `laws.rs`: what holds across calls and states — the live block sits
    above the dormant block and each block follows the ranking, a walk stays
    in its block, only a commit launches a dormant row and only once, one
    beacon elects one executor, binds never repeat without store progress, a
    press stands until the store confirms it, frames and focus never re-rank,
    and closing a tab keeps every surviving row, live or dormant, in its
    relative order; statuses never re-rank; the birth announce waits for an
    active tab and is spent for good; a Done row is marked read once per
    episode; a bind episode spends at most its cap of tries over any run.
  - `card.rs`: the card geometries — a row as two lines or four, every
    line exactly as wide as the pane, built from fixed cell budgets with
    ellipsis truncation, and painted in semantic styles (ink, fade, glass
    or selection bar) that the shell turns into colours. Its laws: the
    zebra costs no cells, only a working row's mark animates, and the
    collapsed card crops cells without moving them.
  - `render.rs`: the row presentation the renderer receives, the viewport
    the paint and the click map share, and the spinner's window.
  - `rows.rs`: provenance, the branch cell, and the provisional ink
    allocation (one colour per repo, chips unique within a repo).
  - `cli.rs`: the command line each effect runs and which instance runs it.
  - `payload.rs`: the navigation pipe's JSON, parsed by serde_json.
  - `plugin_config.rs`, `pipe.rs`, `types.rs`, `text.rs`, `seqs.rs`: the
    configuration keys, the blank-twin pipe guard and the visited
    payload's parse, the store's data types, text helpers and association
    lists.
- `tests/` — the behaviour on concrete values, run against the compiled
  library.
- `app/` — the Zellij shell: events and pipes in, effects out, the store's
  JSON decoded (including the floating-point frecency score), and the
  colours the card styles are painted in, the fade being a blend of two
  colours.
