# sd-immich-tagger

Backfills Immich asset descriptions and tags from the Stable Diffusion
`parameters` text stored in PNG files, as a library verified with Verus and a
thin command-line program around it.

- `src/` — the verified library:
  - `tags.rs`: tag extraction from generation info (LoRA references, weighted
    groups, comma-separated parts, without repeats) and the tag-name limit;
  - `metadata.rs`: reading the `parameters` text out of PNG chunks;
  - `immich.rs`: asset records, the candidate filters and cutoff comparison;
  - `api.rs`: endpoints, request bodies, status rules, and tag-name resolution;
  - `session.rs`: the decisions of one run (paging, limit, counts, plans);
  - `pattern.rs`, `text.rs`: regular expressions and character helpers.
- `app/` — the program: configuration, HTTP calls, JSON, printing.
- `tests/` — tests of the library.
