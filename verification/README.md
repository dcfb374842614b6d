# wf_alloc

A wait-free, span-based memory allocator in Verus: executable Rust with proved
contracts.

A region of memory is cut into 64 KiB spans. Requests take one of three paths,
which is a function of their layout alone:

| Request | Path | Served by |
|---|---|---|
| fits a size class (16 bytes to 16 KiB) | small | a block of a span |
| smaller than one huge granule | large | a run of 2^r spans |
| at least one huge granule | huge | a slot of a fixed directory |

Every thread has private lists of spans and runs, and public lists from which
others may take. A thread that finds nothing announces a request, helps one
other request, and queries each public list at most once. A failed attempt is
never repeated.

## Use

```rust
use wf_alloc::{Layout, WfSpanAllocator};

let mut alloc = WfSpanAllocator::<11, 16384>::new(4);
alloc.init(region_address, region_bytes);
let token = alloc.register_thread().unwrap();

let layout = Layout::from_size_align(64, 8).unwrap();
let p = alloc.alloc_with_token(layout, token);
alloc.dealloc_with_token(p, layout, token);
```

Addresses are `u64`, and 0 stands for none.

## Layout of the crate

- `state` has the allocator and its invariant. Ghost state says where each
  span is, which node belongs to whom, what was carved, and what is live.
- `chain`, `memory`, `block`, `local_list`, `remote_mpsc`, `span`, `heap`,
  `spmc_span_list`, `help_record`, `pagemap`, `thread`, `stats`, `metadata`,
  `region`, `tagged`, `atomic_backend`, `size_class`, `align`, `layout` and
  `config` are the parts.
- `moves`, `requests`, `blocks`, `refill`, `carve` and `runs` are single
  actions that keep the invariant.
- `protocol` is the helping protocol as a state machine, `acquire` runs it on
  the allocator, one action per step.
- `small`, `free`, `large` and `huge` are the three paths, `boot` and
  `allocator` the operations over them.
- `global` adds shards, hidden headers and the decisions of a process-wide
  allocator.
- `verify` walks an allocator that no thread is using.
- `stepwise` takes allocations and deallocations apart into the actions between
  which other threads may act. The operations of `allocator` are runs of these
  actions, and `alone` shows that every run in which no other thread acts is
  such an operation.
- `laws` and `capacity` state what holds of the allocator as a whole.

`app/` connects the library to the operating system: memory, thread-local
bindings, `GlobalAlloc`, and double-word atomics.

## What is proved

- What every operation returns, and what it changes: `allocated` and
  `deallocated` in `allocator`, and the effects that they name.
- Live allocations are aligned, lie in the region and never overlap.
- A block is live or free, and free in one list only; a span is in one place.
- An allocation fails only where the pool is exhausted for it. Remotely freed
  blocks are recovered once their links have landed; no allocation and no
  deallocation takes a link away again; and while one thread is at work on one
  class, exactly as many allocations succeed after everything was freed as the
  region has blocks.
- Every run of single actions of an allocation or a deallocation, in which no
  other thread acts, does what the whole operation does: `alone`.
- How many steps every operation counts while no other thread acts: `alloc_count`
  and `dealloc_cost` in `allocator`.
- Every operation keeps its step bounds, and ends within a number of actions that
  depends on the number of threads alone, whatever the others do in between:
  `stepwise`, and `law_acquisition_is_wait_free` in `laws`.
- No pending request is passed over by a thread that goes on acquiring spans of
  its class: `law_pending_request_is_completed` in `laws`.

An action is the unit between which threads interleave. In the helping protocol
it is one access to a request record or one pop attempt. Elsewhere some actions
hold several atomic operations: the swap, the link and the count of a remote
free; the swap, the walk and the count of a refill; the fetch-and-add and the
rollback of a request to the pool; the compare-exchange, the carving and the
stores of a huge slot. What happens when others act between those is not stated.
The head of `stepwise` has the list.
