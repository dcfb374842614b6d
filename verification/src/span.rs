//! Span headers, their initialization, and owner-local allocation and free.
//!
//! A span is a `SPAN_SIZE`-byte, `SPAN_SIZE`-aligned region: the header
//! reserve, padding, and the blocks.

use crate::align::{is_pow2, round_down};
use crate::block::{block_payload, UNLINKED};
use crate::chain::{blocks, cons, first, half_linked, succ};
use crate::config::{SPAN_HEADER_RESERVE, SPAN_SIZE};
use crate::local_list::LocalFreeList;
use crate::memory::{MemView, SpanMemory, GRANULE};
use crate::remote_mpsc::RemoteMpscFreeList;
use crate::size_class::{
    first_block_offset, first_offset, lemma_block_size_divides, lemma_span_blocks, span_blocks,
};
use crate::spmc_span_list::SpanNode;
use crate::stats::StepCounter;
use vstd::arithmetic::div_mod::{lemma_fundamental_div_mod, lemma_mod_multiples_vanish};
use vstd::arithmetic::power2::{lemma2_to64, pow2};
use vstd::prelude::*;

verus! {

/// Advisory span state. What counts is the owner, the free counts, and the
/// list that the span is in.
#[derive(Clone, Copy, Debug, PartialEq, Eq, Structural)]
pub enum SpanState {
    Raw,
    FullLocal,
    NonEmptyLocal,
    FullPublic,
    NonEmptyPublic,
    Discarded,
    /// Large run handed to a user allocation.
    RunAllocated,
    /// Free large run in an owner's private run list.
    RunFreeLocal,
    /// Free large run in a public run list or a run help record.
    RunFreePublic,
}

/// Owner-thread-only metadata.
#[derive(Clone, Copy)]
pub struct LocalMeta {
    /// Local free list.
    pub free: LocalFreeList,
    /// Number of blocks in `free`.
    pub free_count: u64,
    /// Head of a remote chain reclaimed earlier whose consumption stopped at
    /// a missing link; 0 if there is none.
    pub pending_remote: u64,
    /// The blocks of that chain.
    pub pending: Ghost<Seq<u64>>,
    /// Link of the owner's private span list.
    pub next_local: u64,
}

/// Metadata of the remote-free path.
#[derive(Clone, Copy)]
pub struct RemoteMeta {
    /// Remotely freed blocks.
    pub free: RemoteMpscFreeList,
    /// Globally visible free count: raised by remote frees, lowered by the
    /// owner when it absorbs reclaimed blocks.
    pub free_count: i64,
}

/// Metadata of a span of blocks, or of a run.
#[derive(Clone, Copy)]
pub struct SpanHeader {
    /// Owner thread id, `OWNER_NONE` or `OWNER_PUBLIC`.
    pub owner: u64,
    /// Size class, or run class of a run.
    pub size_class: u64,
    /// Block size, or size in bytes of a run.
    pub block_size: u64,
    /// Number of blocks, or number of spans of a run.
    pub block_count: u64,
    pub state: SpanState,
    /// The list node that this span currently owns; 0 while it is in a
    /// public list. Nodes migrate between spans and lists.
    pub node: u64,
    pub local: LocalMeta,
    pub remote: RemoteMeta,
}

impl SpanHeader {
    /// The header of a span that was never initialized.
    pub open spec fn blank() -> SpanHeader {
        SpanHeader {
            owner: 0,
            size_class: 0,
            block_size: 0,
            block_count: 0,
            state: SpanState::Raw,
            node: 0,
            local: LocalMeta {
                free: LocalFreeList::of(Seq::empty()),
                free_count: 0,
                pending_remote: 0,
                pending: Ghost(Seq::empty()),
                next_local: 0,
            },
            remote: RemoteMeta { free: RemoteMpscFreeList::of(Seq::empty()), free_count: 0 },
        }
    }

    /// The same header with another owner-list link.
    pub open spec fn with_next(self, next: u64) -> SpanHeader {
        SpanHeader { local: LocalMeta { next_local: next, ..self.local }, ..self }
    }

    pub fn new() -> (r: Self)
        ensures
            r == Self::blank(),
    {
        SpanHeader {
            owner: 0,
            size_class: 0,
            block_size: 0,
            block_count: 0,
            state: SpanState::Raw,
            node: 0,
            local: LocalMeta {
                free: LocalFreeList::new(),
                free_count: 0,
                pending_remote: 0,
                pending: Ghost(Seq::empty()),
                next_local: 0,
            },
            remote: RemoteMeta { free: RemoteMpscFreeList::new(), free_count: 0 },
        }
    }

    /// All free blocks of the span: local, stashed, and remote.
    pub open spec fn free_blocks(self) -> Seq<u64> {
        self.local.free.seq() + self.local.pending@ + self.remote.free.seq()
    }
}

/// `b` is one of the blocks of `bs` bytes of the span at `s`.
pub open spec fn is_block(s: u64, bs: int, b: u64) -> bool {
    &&& s + first_offset(bs) <= b
    &&& b + bs <= s + SPAN_SIZE
    &&& (b - s) % bs == 0
}

/// The blocks of a span in address order.
pub open spec fn all_blocks(s: u64, bs: int) -> Seq<u64> {
    Seq::new(span_blocks(bs) as nat, |k: int| (s + first_offset(bs) + k * bs) as u64)
}

/// A span of blocks is sound: its geometry fits, its three lists of free
/// blocks are sound chains of its own blocks, no block is in two of them or
/// twice in one, and the counts agree with the lists.
pub open spec fn small_span(mem: MemView, s: u64) -> bool {
    let h = mem.headers[s];
    &&& mem.headers.dom().contains(s)
    &&& is_pow2(h.block_size)
    &&& GRANULE <= h.block_size <= SPAN_SIZE
    &&& h.block_count == span_blocks(h.block_size as int)
    &&& h.local.free.wf(mem.links)
    &&& h.remote.free.wf(mem.links)
    &&& h.local.pending_remote == first(h.local.pending@)
    &&& blocks(mem.links, h.local.pending@)
    &&& half_linked(mem.links, h.local.pending@)
    &&& h.local.free_count == h.local.free.seq().len()
    &&& h.remote.free_count == h.remote.free.seq().len() + h.local.pending@.len()
    &&& h.free_blocks().no_duplicates()
    &&& forall|i: int|
        0 <= i < h.free_blocks().len() ==> is_block(
            s,
            h.block_size as int,
            #[trigger] h.free_blocks()[i],
        )
}

/// A run is sound: its geometry fits and it has no block lists.
pub open spec fn run_header(h: SpanHeader) -> bool {
    &&& h.block_count == pow2(h.size_class as nat)
    &&& h.block_size == h.block_count * SPAN_SIZE
    &&& h.local.free == LocalFreeList::of(Seq::empty())
    &&& h.local.free_count == 0
    &&& h.local.pending_remote == 0
    &&& h.local.pending@ == Seq::<u64>::empty()
    &&& h.remote.free == RemoteMpscFreeList::of(Seq::empty())
    &&& h.remote.free_count == 0
}

/// Blocks are addresses of link words inside the span.
pub proof fn lemma_block(mem: &SpanMemory, s: u64, bs: u64, b: u64)
    requires
        mem.wf(),
        mem@.is_span(s),
        is_pow2(bs),
        GRANULE <= bs <= SPAN_SIZE,
        is_block(s, bs as int, b),
    ensures
        mem@.links.dom().contains(b),
        b != 0,
        b != UNLINKED,
        b % bs == 0,
        s < b < s + SPAN_SIZE,
        s + SPAN_HEADER_RESERVE <= b,
{
    mem.lemma_view();
    lemma_block_size_divides(bs);
    lemma_span_blocks(bs as int);
    lemma2_to64();
    assert(GRANULE == pow2(4));
    assert(SPAN_SIZE == pow2(16));
    crate::align::lemma_is_pow2_divides(GRANULE, bs, b - s);
    crate::align::lemma_is_pow2_divides(bs, SPAN_SIZE, s as int);
    assert((s - mem@.base) % (SPAN_SIZE as int) == 0);
    vstd::arithmetic::div_mod::lemma_add_mod_noop(b - s, s as int, bs as int);
    vstd::arithmetic::div_mod::lemma_small_mod(0, bs as nat);
}

/// The blocks of a span in address order are exactly its blocks.
pub proof fn lemma_all_blocks(s: u64, bs: u64)
    requires
        is_pow2(bs),
        bs <= SPAN_SIZE,
        s + SPAN_SIZE <= u64::MAX,
    ensures
        all_blocks(s, bs as int).no_duplicates(),
        forall|i: int|
            0 <= i < all_blocks(s, bs as int).len() ==> is_block(
                s,
                bs as int,
                #[trigger] all_blocks(s, bs as int)[i],
            ) && all_blocks(s, bs as int)[i] == s + first_offset(bs as int) + i * bs,
        forall|b: u64|
            is_block(s, bs as int, b) ==> #[trigger] all_blocks(s, bs as int).contains(b),
{
    lemma_block_size_divides(bs);
    lemma_span_blocks(bs as int);
    let f = first_offset(bs as int);
    let m = span_blocks(bs as int);
    let all = all_blocks(s, bs as int);
    assert forall|i: int| 0 <= i < all.len() implies is_block(s, bs as int, #[trigger] all[i])
        && all[i] == s + f + i * bs by {
        assert(0 <= i * bs && i * bs + bs <= m * bs) by (nonlinear_arith)
            requires
                0 <= i < m,
                bs > 0,
        ;
        lemma_mod_multiples_vanish(i, f, bs as int);
        assert(bs as int * i + f == all[i] - s) by (nonlinear_arith)
            requires
                all[i] == s + f + i * bs,
        ;
    }
    assert forall|i: int, j: int| 0 <= i < all.len() && 0 <= j < all.len() && i != j implies all[i]
        != all[j] by {
        assert(i * bs != j * bs) by (nonlinear_arith)
            requires
                i != j,
                bs > 0,
        ;
    }
    assert forall|b: u64| is_block(s, bs as int, b) implies #[trigger] all.contains(b) by {
        let d = b - s - f;
        vstd::arithmetic::div_mod::lemma_sub_mod_noop(b - s, f, bs as int);
        vstd::arithmetic::div_mod::lemma_small_mod(0, bs as nat);
        lemma_fundamental_div_mod(d, bs as int);
        let k = d / (bs as int);
        assert(0 <= k < m && d == k * bs) by (nonlinear_arith)
            requires
                d == bs * k,
                0 <= d,
                d + bs <= m * bs,
                bs > 0,
        ;
        assert(all[k] == b);
    }
}

/// A span has no more distinct blocks than its block count.
pub proof fn lemma_block_pigeonhole(s: u64, bs: u64, items: Seq<u64>)
    requires
        is_pow2(bs),
        bs <= SPAN_SIZE,
        s + SPAN_SIZE <= u64::MAX,
        items.no_duplicates(),
        forall|i: int| 0 <= i < items.len() ==> is_block(s, bs as int, #[trigger] items[i]),
    ensures
        items.len() <= span_blocks(bs as int),
{
    lemma_all_blocks(s, bs);
    lemma_block_size_divides(bs);
    lemma_span_blocks(bs as int);
    let all = all_blocks(s, bs as int);
    items.unique_seq_to_set();
    all.unique_seq_to_set();
    assert(items.to_set().subset_of(all.to_set())) by {
        assert forall|b: u64| items.to_set().contains(b) implies all.to_set().contains(b) by {
            let i = choose|i: int| 0 <= i < items.len() && items[i] == b;
            assert(is_block(s, bs as int, items[i]));
            assert(all.contains(b));
        }
    }
    vstd::set_lib::lemma_len_subset(items.to_set(), all.to_set());
}

/// The span of an address, by masking.
pub open spec fn span_base(ptr: u64) -> u64 {
    (ptr - ptr % SPAN_SIZE) as u64
}

/// Recover the span from any address inside it. Relies on the alignment of
/// spans to their size.
pub fn span_from_ptr(ptr: u64) -> (r: u64)
    ensures
        r == span_base(ptr),
        r % SPAN_SIZE == 0,
        r <= ptr < r + SPAN_SIZE,
{
    proof {
        lemma2_to64();
        assert(SPAN_SIZE == pow2(16));
    }
    round_down(ptr, SPAN_SIZE)
}

/// The span of every block, and of its payload, is recovered by masking.
pub proof fn law_span_of_block(s: u64, bs: u64, b: u64)
    requires
        s % SPAN_SIZE == 0,
        is_pow2(bs),
        bs <= SPAN_SIZE,
        is_block(s, bs as int, b),
    ensures
        span_base(b) == s,
{
    lemma_block_size_divides(bs);
    lemma_span_blocks(bs as int);
}

/// The header of a freshly initialized span of blocks.
pub open spec fn fresh_span(
    base: u64,
    size_class: u64,
    block_size: u64,
    owner: u64,
    node: u64,
) -> SpanHeader {
    SpanHeader {
        owner,
        size_class,
        block_size,
        block_count: span_blocks(block_size as int) as u64,
        state: SpanState::FullLocal,
        node,
        local: LocalMeta {
            free: LocalFreeList::of(all_blocks(base, block_size as int)),
            free_count: span_blocks(block_size as int) as u64,
            ..SpanHeader::blank().local
        },
        ..SpanHeader::blank()
    }
}

/// Initialize a raw span for `size_class` and hand it to `owner`. The local
/// free list holds all blocks in address order.
pub fn init_span(
    mem: &mut SpanMemory,
    base: u64,
    size_class: u64,
    block_size: u64,
    owner: u64,
) -> (r: u64)
    requires
        old(mem).wf(),
        old(mem)@.is_span(base),
        is_pow2(block_size),
        GRANULE <= block_size <= SPAN_SIZE,
    ensures
        r == base,
        final(mem).wf(),
        final(mem)@ == (MemView {
            headers: old(mem)@.headers.insert(
                base,
                fresh_span(base, size_class, block_size, owner, old(mem)@.own_node(base)),
            ),
            links: final(mem)@.links,
            nodes: old(mem)@.nodes.insert(old(mem)@.own_node(base), SpanNode::fresh()),
            ..old(mem)@
        }),
        final(mem)@.links.dom() == old(mem)@.links.dom(),
        forall|a: u64|
            old(mem)@.links.dom().contains(a) && !is_block(base, block_size as int, a)
                ==> #[trigger] final(mem)@.links[a] == old(mem)@.links[a],
        small_span(final(mem)@, base),
{
    proof {
        mem.lemma_view();
        lemma_block_size_divides(block_size);
        lemma_span_blocks(block_size as int);
        lemma_all_blocks(base, block_size);
    }
    let node: u64 = mem.own_node(base);
    mem.set_node(node, SpanNode::new());
    let first_off: u64 = first_block_offset(block_size);
    let count: u64 = (SPAN_SIZE - first_off) / block_size;
    let ghost all = all_blocks(base, block_size as int);
    let ghost mid = mem@;
    let mut head: u64 = 0;
    let mut i: u64 = count;
    proof {
        assert(all.skip(count as int) =~= Seq::<u64>::empty());
    }
    while i > 0
        invariant
            mem.wf(),
            mem@.is_span(base),
            is_pow2(block_size),
            GRANULE <= block_size <= SPAN_SIZE,
            0 <= i <= count,
            count == span_blocks(block_size as int),
            first_off == first_offset(block_size as int),
            first_off + count * block_size == SPAN_SIZE,
            base + SPAN_SIZE <= u64::MAX,
            all == all_blocks(base, block_size as int),
            all.no_duplicates(),
            all.len() == count,
            forall|j: int|
                0 <= j < all.len() ==> is_block(base, block_size as int, #[trigger] all[j])
                    && all[j] == base + first_off + j * block_size,
            mem@ == (MemView { links: mem@.links, ..mid }),
            mem@.links.dom() == mid.links.dom(),
            forall|a: u64|
                mid.links.dom().contains(a) && !is_block(base, block_size as int, a)
                    ==> #[trigger] mem@.links[a] == mid.links[a],
            head == first(all.skip(i as int)),
            forall|j: int| i <= j < count ==> mem@.links[#[trigger] all[j]] == succ(all, j),
        decreases i,
    {
        i = i - 1;
        proof {
            assert(i * block_size + block_size <= count * block_size) by (nonlinear_arith)
                requires
                    0 <= i < count,
                    block_size > 0,
            ;
            lemma_block(mem, base, block_size, all[i as int]);
        }
        let b: u64 = base + first_off + i * block_size;
        assert(b == all[i as int]);
        mem.set_link(b, head);
        head = b;
    }
    proof {
        assert(all.skip(0) =~= all);
        assert forall|j: int| 0 <= j < all.len() implies all[j] != 0 && all[j] != UNLINKED
            && mem@.links.dom().contains(#[trigger] all[j]) by {
            lemma_block(mem, base, block_size, all[j]);
        }
    }
    let mut header = SpanHeader {
        owner,
        size_class,
        block_size,
        block_count: count,
        state: SpanState::FullLocal,
        node,
        local: LocalMeta {
            free: LocalFreeList::new(),
            free_count: 0,
            pending_remote: 0,
            pending: Ghost(Seq::empty()),
            next_local: 0,
        },
        remote: RemoteMeta { free: RemoteMpscFreeList::new(), free_count: 0 },
    };
    proof {
        broadcast use LocalFreeList::lemma_of, RemoteMpscFreeList::lemma_of;

    }
    header.local.free.push_chain_head_for_init(mem, head, count, Ghost(all));
    header.local.free_count = count;
    mem.set_header(base, header);
    proof {
        broadcast use LocalFreeList::lemma_of, RemoteMpscFreeList::lemma_of;

        assert(header.free_blocks() =~= all);
    }
    base
}

/// The header of a freshly carved run.
pub open spec fn fresh_run(run_class: u64, span_count: u64, owner: u64, node: u64) -> SpanHeader {
    SpanHeader {
        owner,
        size_class: run_class,
        block_size: (span_count * SPAN_SIZE) as u64,
        block_count: span_count,
        state: SpanState::RunAllocated,
        node,
        ..SpanHeader::blank()
    }
}

/// Initialize the base span of a freshly carved run of `span_count` spans and
/// hand it to `owner`. The whole run is one allocation unit, so no block list
/// is built: `size_class` holds the run class, `block_count` the span count
/// and `block_size` the size in bytes.
pub fn init_run(
    mem: &mut SpanMemory,
    base: u64,
    run_class: u64,
    span_count: u64,
    owner: u64,
) -> (r: u64)
    requires
        old(mem).wf(),
        old(mem)@.is_span(base),
        span_count == pow2(run_class as nat),
        span_count * SPAN_SIZE <= u64::MAX,
    ensures
        r == base,
        final(mem).wf(),
        final(mem)@ == (MemView {
            headers: old(mem)@.headers.insert(
                base,
                fresh_run(run_class, span_count, owner, old(mem)@.own_node(base)),
            ),
            nodes: old(mem)@.nodes.insert(old(mem)@.own_node(base), SpanNode::fresh()),
            ..old(mem)@
        }),
        run_header(final(mem)@.headers[base]),
{
    proof {
        mem.lemma_view();
    }
    let node: u64 = mem.own_node(base);
    mem.set_node(node, SpanNode::new());
    let header = SpanHeader {
        owner,
        size_class: run_class,
        block_size: span_count * SPAN_SIZE,
        block_count: span_count,
        state: SpanState::RunAllocated,
        node,
        local: LocalMeta {
            free: LocalFreeList::new(),
            free_count: 0,
            pending_remote: 0,
            pending: Ghost(Seq::empty()),
            next_local: 0,
        },
        remote: RemoteMeta { free: RemoteMpscFreeList::new(), free_count: 0 },
    };
    mem.set_header(base, header);
    base
}

/// A header after a block was popped from its local list.
pub open spec fn popped(h: SpanHeader) -> SpanHeader {
    SpanHeader {
        state: SpanState::NonEmptyLocal,
        local: LocalMeta {
            free: LocalFreeList::of(h.local.free.seq().drop_first()),
            free_count: (h.local.free_count - 1) as u64,
            ..h.local
        },
        ..h
    }
}

/// A header after a block was pushed to its local list.
pub open spec fn pushed(h: SpanHeader, block: u64) -> SpanHeader {
    SpanHeader {
        local: LocalMeta {
            free: LocalFreeList::of(cons(block, h.local.free.seq())),
            free_count: (h.local.free_count + 1) as u64,
            ..h.local
        },
        ..h
    }
}

/// A pop undoes a push: it takes the block that was pushed, and the list and its
/// count are as before.
pub proof fn law_pop_undoes_push(h: SpanHeader, block: u64)
    requires
        h.local.free_count < u64::MAX,
        h.local.free == LocalFreeList::of(h.local.free.seq()),
    ensures
        pushed(h, block).local.free.seq()[0] == block,
        pushed(h, block).local.free_count == h.local.free_count + 1,
        pushed(h, block).state == h.state,
        popped(pushed(h, block)).local == h.local,
        popped(pushed(h, block)).remote == h.remote,
        popped(pushed(h, block)).owner == h.owner,
        popped(h).state == SpanState::NonEmptyLocal,
{
    broadcast use LocalFreeList::lemma_of;

    assert(cons(block, h.local.free.seq()).drop_first() =~= h.local.free.seq());
}

/// A new span is full: its local list holds all its blocks in address order,
/// from the first multiple of the block size behind the header to the end of
/// the span, and nothing else is free.
pub proof fn law_new_span_is_full(
    base: u64,
    size_class: u64,
    block_size: u64,
    owner: u64,
    node: u64,
    i: int,
)
    requires
        is_pow2(block_size),
        GRANULE <= block_size <= SPAN_SIZE,
        base + SPAN_SIZE <= u64::MAX,
    ensures
        ({
            let h = fresh_span(base, size_class, block_size, owner, node);
            let list = h.local.free.seq();
            &&& h.owner == owner
            &&& h.size_class == size_class
            &&& h.block_size == block_size
            &&& h.state == SpanState::FullLocal
            &&& h.block_count == list.len()
            &&& h.local.free_count == list.len()
            &&& h.free_blocks() == list
            &&& 0 <= i < list.len() ==> list[i] + (list.len() - i) * block_size == base + 65536
            &&& 65536 - 1024 - block_size < list.len() * block_size <= 65536 - 1024
        }),
{
    broadcast use LocalFreeList::lemma_of, RemoteMpscFreeList::lemma_of;

    let bs = block_size as int;
    lemma_block_size_divides(block_size);
    lemma_span_blocks(bs);
    lemma_all_blocks(base, block_size);
    crate::align::lemma_up(SPAN_HEADER_RESERVE as int, bs);
    let m = span_blocks(bs);
    let h = fresh_span(base, size_class, block_size, owner, node);
    assert(h.free_blocks() =~= h.local.free.seq());
    assert((m - i) * bs == m * bs - i * bs) by (nonlinear_arith);
    if 0 <= i < m {
        assert(all_blocks(base, bs)[i] == base + first_offset(bs) + i * bs);
    }
}

/// A new run is one allocated piece of as many spans as it is given.
pub proof fn law_new_run_is_one_piece(run_class: u64, span_count: u64, owner: u64, node: u64)
    requires
        span_count * SPAN_SIZE <= u64::MAX,
    ensures
        ({
            let h = fresh_run(run_class, span_count, owner, node);
            &&& h.owner == owner
            &&& h.size_class == run_class
            &&& h.block_size == span_count * 65536
            &&& h.block_count == span_count
            &&& h.state == SpanState::RunAllocated
            &&& h.free_blocks() == Seq::<u64>::empty()
        }),
{
    broadcast use LocalFreeList::lemma_of, RemoteMpscFreeList::lemma_of;

    assert(fresh_run(run_class, span_count, owner, node).free_blocks() =~= Seq::<u64>::empty());
}

/// Pop one block from the local free list of a span, or 0.
pub fn alloc_from_local_span(mem: &mut SpanMemory, span: u64, step: &mut StepCounter) -> (r: u64)
    requires
        old(mem).wf(),
        old(mem)@.headers.dom().contains(span),
        old(mem)@.headers[span].local.free.wf(old(mem)@.links),
        old(mem)@.headers[span].local.free_count
            == old(mem)@.headers[span].local.free.seq().len(),
        old(step).room(1),
    ensures
        final(mem).wf(),
        r == first(old(mem)@.headers[span].local.free.seq()),
        r == 0 <==> old(mem)@.headers[span].local.free.seq().len() == 0,
        r == 0 ==> *final(mem) == *old(mem),
        final(mem)@ == (if r == 0 {
            old(mem)@
        } else {
            MemView {
                headers: old(mem)@.headers.insert(span, popped(old(mem)@.headers[span])),
                ..old(mem)@
            }
        }),
        *final(step) == (StepCounter {
            local_steps: (old(step).local_steps + 1) as u64,
            ..*old(step)
        }),
{
    step.local_steps = step.local_steps + 1;
    let mut h = mem.header(span);
    let block: u64 = h.local.free.pop(mem);
    if block == 0 {
        return 0;
    }
    h.local.free_count = h.local.free_count - 1;
    h.state = SpanState::NonEmptyLocal;
    mem.set_header(span, h);
    block_payload(block)
}

/// Push one block to the local free list of a span.
pub fn dealloc_to_local_span(mem: &mut SpanMemory, span: u64, block: u64)
    requires
        old(mem).wf(),
        old(mem)@.headers.dom().contains(span),
        old(mem)@.headers[span].local.free.wf(old(mem)@.links),
        old(mem)@.links.dom().contains(block),
        block != 0,
        block != UNLINKED,
        !old(mem)@.headers[span].local.free.seq().contains(block),
        old(mem)@.headers[span].local.free_count < u64::MAX,
    ensures
        final(mem).wf(),
        final(mem)@ == (MemView {
            headers: old(mem)@.headers.insert(span, pushed(old(mem)@.headers[span], block)),
            links: old(mem)@.links.insert(block, old(mem)@.headers[span].local.free.head()),
            ..old(mem)@
        }),
        final(mem)@.headers[span].local.free.wf(final(mem)@.links),
{
    let mut h = mem.header(span);
    h.local.free.push(mem, block);
    h.local.free_count = h.local.free_count + 1;
    mem.set_header(span, h);
}

/// Local free count, global free count and block count of a span.
pub fn span_counts(mem: &SpanMemory, span: u64) -> (r: (u64, i64, u64))
    requires
        mem.wf(),
        mem@.headers.dom().contains(span),
    ensures
        r.0 == mem@.headers[span].local.free_count,
        r.1 == mem@.headers[span].remote.free_count,
        r.2 == mem@.headers[span].block_count,
{
    let h = mem.header(span);
    (h.local.free_count, h.remote.free_count, h.block_count)
}

} // verus!
