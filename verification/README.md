# autoint

A news-briefing service: it reads RSS/Atom feeds, embeds the headlines,
groups headlines that several outlets report into clusters, rates the
clusters and publishes a report.

- `src/` is the verified library (Verus):
  - `fetcher.rs`: turning parsed feed entries into headline events
    (NFC normalization, length and English checks), merging feeds;
  - `embedding.rs`: greedy longest-match word-piece tokenization;
  - `community.rs`: stable size ordering of candidate communities,
    extraction of non-overlapping communities, matrix transposition;
  - `watchdog.rs`: gathering the events of a community;
  - `report.rs`: ratings, headline fingerprints, report assembly;
  - `text.rs`: character helpers.
- `app/` is the service around it: HTTP fetching, the embedding model and
  every floating-point score, the web server and the database upload.
- `tests/` exercises the library on concrete inputs.
