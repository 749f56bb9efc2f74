# TFT Meta Scouts

A study of which high-ranked Teamfight Tactics players adopt successful
compositions before those compositions become widely played.

The library in `src/` holds the logic, each function with a contract that
Verus proves:

- `model`: player-match observations and the identity of a composition (its
  champions, once each, in lexicographic order).
- `families`: boards of a patch that share at least 80% of the larger board's
  champions are grouped into one family, founded by the first board seen.
- `analysis`: fixed time windows, and per patch, window and family the plays,
  placements, top-four finishes and the usage change from the previous
  populated window.
- `emerging`: growing families with two or more plays and an average placement
  of 4.5 or better.
- `scouting` and `forecast`: the players who played a family in the window
  before it emerged, their ranking, and the next-window forecast from the
  latest boards of established scouts.
- `evaluation`: a historical replay of the scouts' forecasts against
  current-popularity and current-performance baselines.
- `api`, `dataset`, `audit`, `ingestion`, `storage`: Riot match data as plain
  values, the standard ranked dataset of a set, the audit of cached matches,
  the decisions of ingestion and set backfill, and the data-store layout.
- `text`, `fraction`, `sorting`: lexicographic order, exact fraction
  comparison and a stable sort.

The program in `app/` reads the Riot API and the cached JSON files, and prints
reports:

```bash
cargo run                     # in-memory demonstration
cargo run -- api-smoke        # live Riot API smoke test (reads RIOT_KEY from .env)
cargo run -- ingest [n] [m]   # cache recent matches of the top Challenger players
cargo run -- backfill 17 [n]  # cache a set's history, back to the previous set
cargo run -- audit            # audit the cached matches
cargo run -- analyze          # analyze standard ranked matches of set 17
```
