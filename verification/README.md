# corundum

Persistent memory programming with failure-atomic transactions, written in
Verus. A pool's persistent region is modelled as a byte image; the buddy
allocator, the logged cells and the reference counted pointers act on that
image. Beside it, a log image holds one redo record per zone: before a zone
makes the stores of an operation, it writes them into its record and marks
the record complete, and opening a pool makes the stores of every complete
record again, so an allocator operation that a crash cut short while its
stores reached the image is completed from the bytes of the two images
alone. The transaction journal (its records and the saved copies of logged
data), the allocator's queued stores before they are made, and its drop
records are held in memory; the rules proved for rollback, commit and
transaction recovery are stated over the image together with them.

## Layout

- `src/pmem.rs`: the byte image, word reads and writes, redo logs of word
  stores (and that redoing them is idempotent).
- `src/record.rs`: redo records in the log image, written, read back and
  replayed.
- `src/buddy.rs`, `src/freelist.rs`: the buddy allocator of one zone, with its
  redo log (`aux`), word log and drop log, crash recovery, the sorted free
  lists kept in the image, and the walk that checks stored free lists for
  blocks outside the image and for cycles.
- `src/pool.rs`: a pool of zones, one per processor, over one image, set up
  fresh or opened from the bytes of an existing image and log image (the
  complete records replayed, then the free lists read back and checked).
- `src/stm.rs`: log records, the journal, commit, rollback and recovery.
- `src/cell.rs`, `src/boxed.rs`, `src/ptr.rs`, `src/gen.rs`: logged cells,
  boxes, pointers and byte arrays in the pool.
- `src/prc.rs`, `src/parc.rs`: reference counted boxes whose counts are logged
  (`Prc`) or recounted on failure (`Parc`).
- `src/vec.rs`, `src/hashmap.rs`: a persistent vector of words and a bucketed
  hash map.
- `src/marker.rs`, `src/utils.rs`: marker traits, the ring buffer used by the
  allocator's logs, small helpers.
- `app/`: memory-mapped pool files, the transaction driver that catches a
  panicking body, and the printed reports.
- `tests/`: tests run against the compiled library.
