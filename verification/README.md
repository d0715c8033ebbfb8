# sai3_bench (verified core)

The logic of a storage benchmark whose behaviour is proved with Verus:

- `directory_tree`: width/depth directory trees, their manifests, file
  index ranges and the round-robin split of directories and files between
  agents.
- `metadata_cache`: object states, cache flush policies, configuration
  hashes, shared-storage detection of endpoint URIs, checkpoint coverage.
- `endpoint_records`: the per-endpoint object cache's key layout, file
  ownership, value framing, entry transitions, scans by state, cache and
  checkpoint locations and the checkpoint retry schedule.
- `oplog_merge`: worker op-log naming, merged log lines, k-way merge
  queue, streaming order check and window sort by start time.
- `autotune`: the channel sweep, the matrix of sweep cases and what each
  trial runs with.
- `scaling`: division of concurrency between worker runtimes and processes.
- `cli`, `glob`: command-line values (keywords, comma-separated lists, URIs,
  trial URIs), glob patterns as regexes, and human-readable numbers.
- `constants`, `metrics`: size buckets and units, byte-count formatting.
- `cpu_monitor`, `fs_metadata`, `metadata_ops`, `metadata_prefetch`,
  `live_stats`: the decisions and data of CPU sampling, local paths, metadata
  operations, stages and stage progress.
- `text`, `fixed_point`: string and number rendering with exact
  specifications (decimal and fixed-point digits, trimming, splitting).

`app/` holds the program around it: argument handling, file and network
I/O, the fjall-backed caches and their checkpoint archives, async
pipelines, child processes of autotune trials, serde encodings and
floating-point formatting.
