# zen_engine

Parsing and analytical core for large forensic datasets (delimited text, NDJSON,
Windows EVTX logs, PCAP captures), written in Verus: every function under `src/`
carries a contract that the verifier proves.

## Layout

- `src/` — the verified library.
  - `bytes`, `text`, `scan`: byte readers, UTF-8 text, code point order, byte search.
  - `engine`: fields of a row (plain and RFC 4180), row search and retrieval, schema
    inference, export helpers.
  - `index`: the line-offset index of a dataset, its chunk hashes and its cache file.
  - `zones`: zone maps (which rows each zone holds) and their agreement with the index.
  - `delta`: row deletions and updates kept beside a dataset, their file format and
    compaction.
  - `filter`: the filter language (tokens, parser, text comparisons).
  - `evtx`, `pcap`, `parsers`: format probes, carving and capture analysis.
  - `dataset`, `discovery`, `history`, `ingest`, `blueprint`, `report`, `domain`,
    `utils`, `types`, `dma`: multi-file datasets, file discovery, scan history, the
    ingestion actor, formulas, report facts, label aliases, classifiers and the
    transfer pipeline.
  - `ranking`: the first `n` rows by a numeric key (top-N), with the law that the
    ranking is determined by the keys.
  - `machine`: host facts decided from probed values (device numbers, the sysfs
    rotational flag, the mount a path lies under, the CPU brand, the storage label).
- `tests/` — tests of the library on concrete values.
- `app/` — the host layer: files, memory maps, threads, hardware probes, JSON stores,
  and the floating-point parts of analysis.

Laws that relate several functions are public proof functions named `lemma_*`
(for instance `delta::lemma_persist_load_roundtrip`,
`index::lemma_index_cache_roundtrip`, `zones::lemma_zones_match_index`,
`ingest::lemma_ingest_keeps_every_row`).
