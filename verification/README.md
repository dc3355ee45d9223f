# omega_drive

The decision-making core of the Omega Drive desktop client and its video
player, written in Verus. The functions in `src/` carry contracts that Verus
proves, except for a few small wrappers marked `#[verifier::external_body]`
around calls into `serde_json` and `chrono`: their contracts state what
those crates do and are trusted, not proved.

## Layout

- `src/` — the verified library.
  - `sparse.rs`, `chunks.rs`: the in-memory sparse byte cache that backs
    streaming playback (merging writes, range checks, assembly, LRU eviction
    under a watermark with pinned windows), with the laws that over any run
    of writes the newest write wins and other bytes keep their values, and
    that eviction only drops whole, unpinned chunks and stops above the
    watermark only when every chunk left is pinned.
  - `range.rs`, `video_index.rs`, `playback.rs`, `telemetry.rs`: HTTP range
    parsing and planning, seek detection from byte ranges, container index
    hints and the in-memory cache of index windows, mpv buffering values and
    segment fetch telemetry.
  - `flights.rs`: the table of part fetches under way, so that a second
    request for a part joins the fetch already running.
  - `mpv.rs`, `runtime.rs`, `player_config.rs`: native player sessions and
    their monitor, the video bridge child process, the player settings page.
  - `onboarding.rs`, `destinations.rs`, `bot_env.rs`: tenants and their
    destinations, the destination cache, the `.env` file of credentials.
  - `extensions.rs`: extension manifests, their error messages, and the
    extension registry, whose ids stay unique (a type invariant).
  - `settings.rs`: reading the settings file's JSON and filling it from its
    defaults, with the laws that user values are kept at every level and
    every default key is present at every level.
  - `shell.rs`, `system.rs`, `url_cache.rs`: startup and deep links, the UI
    watchdog, purge stages, logging switches, binaries, CDN link caching.
  - `json.rs`: the JSON the player stores (audio track lists, link rows),
    read and written through `serde_json` behind trusted wrappers, with the
    JSON they write stated exactly.
  - `text.rs`: strings and numerals as the rest of the library reads them.
- `tests/` — tests run against the compiled library.
- `app/` — the unverified shell: file, process and network I/O, the async
  cache service and its coalesced part fetches, floating-point playback
  rules, and the conversion of the library's JSON back to `serde_json`.
