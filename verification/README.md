# archive_engine

A viewer engine for chat-channel exports, with its logic proved by Verus.

The exports (one JSON file per channel) are turned into a compact archive: users,
channels sorted by category and name, and each channel's messages sorted by time.
The viewer then renders that archive as HTML fragments: the sidebar, pages of
messages with grouping and reply quotes, full-text and author search, a
leaderboard of the most active authors and a per-day heatmap of activity.

## Layout

- `src/` — the verified library.
  - `model.rs` — the archive and its mathematical view (messages by position).
  - `text.rs` — characters and strings: trimming, HTML escaping, decimal
    formatting and parsing, substring search.
  - `calendar.rs` — day numbers and calendar years; chrono does the conversions
    behind a few trusted wrappers.
  - `sort.rs` — a merge sort of integer keys.
  - `html.rs` — the markup fragments, each as a specification and a writer.
  - `builder.rs` — building the archive from parsed exports.
  - `stats.rs` — the leaderboard and the heatmap counts.
  - `views.rs` — sidebar, channel lookups, leaderboard and heatmap HTML.
  - `messages.rs` — the message list.
  - `search.rs` — search, its result list and its plain-text export.
  - `laws.rs` — properties of the library as a whole.
- `tests/` — tests on concrete archives.
- `app/` — the archive builder program (file reading, JSON, bincode, gzip) and the
  browser entry points that keep the engine's state between calls.
