# object_pool

A thread-safe object pool with automatic return and attach/detach semantics,
written in Verus.

- `src/pool.rs`: `Pool` keeps its objects on a stack behind a `parking_lot`
  mutex; `Reusable` lends one out and gives it back when dropped, unless it was
  detached.
- `src/experimental.rs`: a pool of a fixed set of objects whose free list is a
  row of atomic words, one bit per object; `ObjectRef` and `Object` lend an
  object out from a borrowed pool or from one held in an `Arc`.
- `src/bits.rs`: the free list's word arithmetic, its model (the set of free
  indices) and the proofs about it.
- `src/sync.rs`: the calls into `parking_lot`, the atomics and `Arc` that the
  pools make, each with the contract Verus is asked to trust.

State shared through `&self` (the mutex's stack, the atomic words) can change
between any two calls, so the contracts of the operations that read it state what
holds whatever they find. What those operations do with what they read is done by
functions of `bits` with exact contracts: `scan_next`, `scan_loaded` and
`scan_cleared` take the free-list scan from what each atomic read returned to its
next step (the object it tries is the least it holds free), `release_mask` makes
the mask that gives an object back, and `count_free` counts the free objects of
the words read.
