# mrc_sim

Miss ratio curves for a two-tier key-value cache: DRAM, managed by an
eviction policy within a byte budget, above a flash tier of unbounded size.
Admission decides where a key seen for the first time goes; promotion
decides whether a key read from flash moves up to DRAM.

The library in `src/` is verified with Verus:

- `eviction` — the interface of a DRAM eviction policy and the laws every
  policy obeys (hits, what an admission evicts, the byte budget), with an
  abstract state (`Model`) and the functions that say what `touch` and
  `admit_entry` do to it;
- `random`, `lru`, `lfu`, `fifo`, `s3fifo`, `truelru` — allkeys-random,
  sampled LRU, sampled LFU with Morris counters, FIFO, S3-FIFO and exact LRU,
  each with a functional model of what it keeps and evicts;
- `promotion`, `admission` — the tier policies;
- `sim` — the two-tier simulation: its result is stated exactly by
  `sim_run`, a step-by-step model of the run over the policies' abstract
  states; and its laws: a zero budget misses every measured access; a
  budget that holds every entry misses none, for the policies without an
  admission filter of their own (which excludes s3-fifo with a small target
  below the budget); every first touch is a true miss, so counting first
  touches adds one miss per distinct key and leaves the tiers, flash hits,
  promotions and evictions as they were;
- `trace` — turning the bytes of a trace file into a trace: the first line
  says whether the first record is a header (and the synthetic layout
  `key,op,value_size,workload_label` is recognised by that exact header),
  the `csv` crate splits the records, and each record is read into keys and
  sizes, with totals over distinct keys;
- `names` — the names by which policies and modes are chosen; `make_policy`
  builds each named eviction policy but s3-fifo with its settings (sampled
  LRU and LFU look at 5 keys, the generators start from seed 42), and each
  promotion policy's label reads back as the same policy;
- `fxmap`, `text`, `rng`, `seqs`, `slots`, `churn` — support.

`app/` is the command-line program around it: argument parsing, reading the
trace files from disk, the capacity sweep, the parallel runs and the CSV output.
