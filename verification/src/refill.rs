//! Absorbing remotely freed blocks into the local free list of a span.

use crate::blocks::lemma_parts;
use crate::chain::{
    apart, blocks, first, half_linked, lemma_concat, lemma_frame, lemma_rev, lemma_skip,
    lemma_split, lemma_stall, rev, stall,
};
use crate::config::SPAN_SIZE;
use crate::local_list::LocalFreeList;
use crate::memory::{MemView, SpanMemory};
use crate::remote_mpsc::{
    append_remote_to_local_bounded, lemma_walk, remote_chain, RemoteMpscFreeList,
};
use crate::span::{is_block, lemma_block_pigeonhole, small_span, LocalMeta, RemoteMeta, SpanHeader};
use crate::stats::StepCounter;
use vstd::prelude::*;

verus! {

/// Number of blocks that a refill absorbs: those of the stashed chain before
/// its first missing link; and, if there is no missing link in it, those of
/// the remote list before its first missing link.
pub open spec fn refill_gain(h: SpanHeader, links: Map<u64, u64>) -> nat {
    let p = h.local.pending@;
    let r = h.remote.free.seq();
    if stall(links, p) < p.len() {
        stall(links, p)
    } else {
        p.len() + stall(links, r)
    }
}

/// A header after a refill. The blocks absorbed are in front of the local
/// list, the last one first; what lies behind a missing link is stashed.
pub open spec fn refilled(h: SpanHeader, links: Map<u64, u64>) -> SpanHeader {
    let l = h.local.free.seq();
    let p = h.local.pending@;
    let r = h.remote.free.seq();
    let a = stall(links, p) as int;
    let b = stall(links, r) as int;
    let gain = refill_gain(h, links);
    let count = (h.local.free_count + gain) as u64;
    let visible = (h.remote.free_count - gain) as i64;
    if a < p.len() {
        SpanHeader {
            local: LocalMeta {
                free: LocalFreeList::of(rev(p.take(a)) + l),
                free_count: count,
                pending_remote: first(p.skip(a)),
                pending: Ghost(p.skip(a)),
                ..h.local
            },
            remote: RemoteMeta { free_count: visible, ..h.remote },
            ..h
        }
    } else {
        SpanHeader {
            local: LocalMeta {
                free: LocalFreeList::of(rev(r.take(b)) + (rev(p) + l)),
                free_count: count,
                pending_remote: first(r.skip(b)),
                pending: Ghost(r.skip(b)),
                ..h.local
            },
            remote: RemoteMeta {
                free: RemoteMpscFreeList::of(Seq::empty()),
                free_count: visible,
            },
            ..h
        }
    }
}

/// Blocks that a refill looks at.
pub open spec fn refill_scans(h: SpanHeader, links: Map<u64, u64>) -> nat {
    refill_gain(h, links) + (if refilled(h, links).local.pending@.len() > 0 {
        1nat
    } else {
        0
    })
}

/// The step counts after a refill.
pub open spec fn refill_cost(h: SpanHeader, links: Map<u64, u64>, step: StepCounter) -> StepCounter {
    let p = h.local.pending@;
    StepCounter {
        blocks_scanned: (step.blocks_scanned + refill_scans(h, links)) as u64,
        swap_ops: (step.swap_ops + (if stall(links, p) < p.len() { 0int } else { 1 })) as u64,
        faa_ops: (step.faa_ops + (if refill_gain(h, links) > 0 { 1int } else { 0 })) as u64,
        ..step
    }
}

/// The step counts after a span was asked for a block: one try at its local
/// list; and where that is empty a refill, and another try if that absorbed
/// anything.
pub open spec fn serve_count(h: SpanHeader, links: Map<u64, u64>, step: StepCounter) -> StepCounter {
    let tried = StepCounter { local_steps: (step.local_steps + 1) as u64, ..step };
    let absorbed = refill_cost(h, links, tried);
    if h.local.free.seq().len() > 0 {
        tried
    } else if refill_gain(h, links) > 0 {
        StepCounter { local_steps: (absorbed.local_steps + 1) as u64, ..absorbed }
    } else {
        absorbed
    }
}

/// A refill neither loses nor doubles a block, keeps the span sound, and
/// looks at no more blocks than the span has.
pub proof fn lemma_refilled(mem: &SpanMemory, s: u64, links: Map<u64, u64>)
    requires
        mem.wf(),
        mem@.is_span(s),
        small_span(mem@, s),
        links == mem@.links,
    ensures
        ({
            let h = mem@.headers[s];
            let h2 = refilled(h, links);
            &&& h2.free_blocks().no_duplicates()
            &&& forall|x: u64| #[trigger]
                h2.free_blocks().contains(x) <==> h.free_blocks().contains(x)
            &&& h2.free_blocks().len() == h.free_blocks().len()
            &&& h2.local.free_count == h2.local.free.seq().len()
            &&& h2.remote.free_count == h2.remote.free.seq().len() + h2.local.pending@.len()
            &&& refill_scans(h, links) <= h.block_count
            &&& h.free_blocks().len() <= h.block_count <= SPAN_SIZE
        }),
{
    broadcast use LocalFreeList::lemma_of, RemoteMpscFreeList::lemma_of;

    let h = mem@.headers[s];
    let h2 = refilled(h, links);
    let l = h.local.free.seq();
    let p = h.local.pending@;
    let r = h.remote.free.seq();
    let a = stall(links, p) as int;
    let b = stall(links, r) as int;
    mem.lemma_view();
    lemma_parts(h);
    lemma_stall(links, p);
    lemma_stall(links, r);
    lemma_split(p, a);
    lemma_split(r, b);
    lemma_rev(p.take(a));
    lemma_rev(p);
    lemma_rev(r.take(b));
    lemma_block_pigeonhole(s, h.block_size, h.free_blocks());
    crate::size_class::lemma_block_size_divides(h.block_size);
    crate::size_class::lemma_span_blocks(h.block_size as int);
    let l2 = h2.local.free.seq();
    let p2 = h2.local.pending@;
    let r2 = h2.remote.free.seq();
    lemma_concat(rev(p), l);
    lemma_concat(l2, p2);
    lemma_concat(l2 + p2, r2);
    if a < p.len() {
        lemma_concat(rev(p.take(a)), l);
        assert forall|x: u64| !(#[trigger] rev(p.take(a)).contains(x) && l.contains(x)) by {
            assert(p.contains(x) <==> p.take(a).contains(x) || p.skip(a).contains(x));
            assert(l.contains(x) ==> !p.contains(x));
        }
        assert forall|x: u64| !(#[trigger] l2.contains(x) && p2.contains(x)) by {
            assert(p.contains(x) <==> p.take(a).contains(x) || p.skip(a).contains(x));
            assert(l.contains(x) ==> !p.contains(x));
            assert(p.take(a).contains(x) ==> !p.skip(a).contains(x));
        }
        assert forall|x: u64| !(#[trigger] (l2 + p2).contains(x) && r2.contains(x)) by {
            assert(l2.contains(x) <==> rev(p.take(a)).contains(x) || l.contains(x));
            assert(p.contains(x) <==> p.take(a).contains(x) || p.skip(a).contains(x));
            assert(l.contains(x) ==> !r.contains(x));
            assert(p.contains(x) ==> !r.contains(x));
        }
        assert forall|x: u64| #[trigger] h2.free_blocks().contains(x)
            <==> h.free_blocks().contains(x) by {
            assert((l2 + p2).contains(x) <==> l2.contains(x) || p2.contains(x));
            assert(p.contains(x) <==> p.take(a).contains(x) || p.skip(a).contains(x));
        }
    } else {
        let m = rev(p) + l;
        lemma_concat(rev(r.take(b)), m);
        assert forall|x: u64| !(#[trigger] rev(p).contains(x) && l.contains(x)) by {
            assert(l.contains(x) ==> !p.contains(x));
        }
        assert forall|x: u64| !(#[trigger] rev(r.take(b)).contains(x) && m.contains(x)) by {
            assert(r.contains(x) <==> r.take(b).contains(x) || r.skip(b).contains(x));
            assert(l.contains(x) ==> !r.contains(x));
            assert(p.contains(x) ==> !r.contains(x));
        }
        assert forall|x: u64| !(#[trigger] l2.contains(x) && p2.contains(x)) by {
            assert(r.contains(x) <==> r.take(b).contains(x) || r.skip(b).contains(x));
            assert(m.contains(x) <==> rev(p).contains(x) || l.contains(x));
            assert(l.contains(x) ==> !r.contains(x));
            assert(p.contains(x) ==> !r.contains(x));
            assert(r.take(b).contains(x) ==> !r.skip(b).contains(x));
        }
        assert forall|x: u64| !(#[trigger] (l2 + p2).contains(x) && r2.contains(x)) by {
        }
        assert forall|x: u64| #[trigger] h2.free_blocks().contains(x)
            <==> h.free_blocks().contains(x) by {
            assert((l2 + p2).contains(x) <==> l2.contains(x) || p2.contains(x));
            assert(m.contains(x) <==> rev(p).contains(x) || l.contains(x));
            assert(r.contains(x) <==> r.take(b).contains(x) || r.skip(b).contains(x));
        }
    }
}

/// Consume the stashed chain, and the remote list if no chain is left behind,
/// into the local free list. Returns the number of blocks absorbed, and
/// whether a missing link stopped it. Looks at no more blocks than the span
/// has.
#[verifier::rlimit(60)]
pub fn refill_span(mem: &mut SpanMemory, s: u64, step: &mut StepCounter) -> (r: (u64, bool))
    requires
        old(mem).wf(),
        old(mem)@.is_span(s),
        small_span(old(mem)@, s),
        old(step).room(2 * SPAN_SIZE),
    ensures
        final(mem).wf(),
        ({
            let h = old(mem)@.headers[s];
            let links = old(mem)@.links;
            &&& r.0 == refill_gain(h, links)
            &&& r.1 == (refilled(h, links).local.pending@.len() > 0)
            &&& final(mem)@ == (MemView {
                headers: old(mem)@.headers.insert(s, refilled(h, links)),
                links: final(mem)@.links,
                ..old(mem)@
            })
            &&& final(mem)@.links.dom() == links.dom()
            &&& forall|a: u64|
                links.dom().contains(a) && !is_block(s, h.block_size as int, a)
                    ==> #[trigger] final(mem)@.links[a] == links[a]
            &&& forall|a: u64|
                links.dom().contains(a) && !refilled(h, links).local.free.seq().contains(a)
                    ==> #[trigger] final(mem)@.links[a] == links[a]
            &&& r.0 == 0 ==> final(mem)@.links == links
            &&& small_span(final(mem)@, s)
            &&& *final(step) == refill_cost(h, links, *old(step))
        }),
{
    broadcast use LocalFreeList::lemma_of, RemoteMpscFreeList::lemma_of;

    let ghost links0 = mem@.links;
    let ghost h0 = mem@.headers[s];
    let ghost l = h0.local.free.seq();
    let ghost p = h0.local.pending@;
    let ghost q = h0.remote.free.seq();
    let ghost a = stall(links0, p) as int;
    let ghost b = stall(links0, q) as int;
    proof {
        lemma_refilled(mem, s, links0);
        lemma_parts(h0);
        lemma_stall(links0, p);
        lemma_stall(links0, q);
        lemma_split(p, a);
        lemma_split(q, b);
        lemma_all_are_blocks(mem@, s);
        h0.local.free.lemma_ext();
        assert(p.take(0) =~= Seq::<u64>::empty());
        assert(p.skip(0) =~= p);
        assert(rev(Seq::<u64>::empty()) =~= Seq::<u64>::empty());
        assert(Seq::<u64>::empty() + l =~= l);
    }
    let mut got: u64 = 0;
    let mut h = mem.header(s);
    let pending: u64 = h.local.pending_remote;
    h.local.pending_remote = 0;
    h.local.pending = Ghost(Seq::empty());
    mem.set_header(s, h);
    if pending != 0 {
        proof {
            assert(remote_chain(mem@, s, pending, p)) by {
                assert forall|i: int| 0 <= i < p.len() implies !l.contains(#[trigger] p[i]) by {
                    assert(p.contains(p[i]));
                }
            }
            lemma_walk(links0, p, h0.block_count as nat);
        }
        let (k, leftover) = append_remote_to_local_bounded(mem, s, pending, step);
        h = mem.header(s);
        h.local.pending_remote = leftover;
        h.local.pending = Ghost(p.skip(k as int));
        mem.set_header(s, h);
        got = k;
        assert(k == a);
        if leftover != 0 {
            assert(a < p.len());
            if k > 0 {
                step.faa_ops = step.faa_ops + 1;
                h = mem.header(s);
                h.remote.free_count = h.remote.free_count - (k as i64);
                mem.set_header(s, h);
            }
            proof {
                let h2 = mem@.headers[s];
                assert(h2 == refilled(h0, links0));
                assert(mem@.headers =~= old(mem)@.headers.insert(s, refilled(h0, links0)));
                lemma_refill_sound(old(mem)@, mem@, s, p.take(a));
                if a == 0 {
                    assert(mem@.links =~= links0);
                }
            }
            return (got, true);
        }
        proof {
            if a < p.len() {
                assert(p.skip(a)[0] == p[a]);
            }
            assert(a == p.len());
            assert(p.take(a) =~= p);
            assert(p.skip(a) =~= Seq::<u64>::empty());
        }
    }
    let ghost mid = mem@;
    proof {
        assert(p.len() == 0 ==> p =~= Seq::<u64>::empty());
        assert(mid.headers[s].local.free.seq() =~= rev(p) + l);
        assert forall|x: u64|
            links0.dom().contains(x) && !p.contains(x) implies #[trigger] mid.links[x]
            == links0[x] by {
        }
        lemma_frame_apart(links0, mid.links, q, p);
    }
    step.swap_ops = step.swap_ops + 1;
    h = mem.header(s);
    let chain: u64 = h.remote.free.reclaim_all();
    mem.set_header(s, h);
    let mut blocked: bool = false;
    if chain != 0 {
        proof {
            let m = rev(p) + l;
            lemma_concat(rev(p), l);
            lemma_rev(p);
            assert(remote_chain(mem@, s, chain, q)) by {
                assert forall|i: int| 0 <= i < q.len() implies !m.contains(#[trigger] q[i]) by {
                    assert(q.contains(q[i]));
                    assert(l.contains(q[i]) ==> !q.contains(q[i]));
                    assert(p.contains(q[i]) ==> !q.contains(q[i]));
                }
            }
            lemma_walk(mid.links, q, h0.block_count as nat);
        }
        let (k, leftover) = append_remote_to_local_bounded(mem, s, chain, step);
        h = mem.header(s);
        h.local.pending_remote = leftover;
        h.local.pending = Ghost(q.skip(k as int));
        mem.set_header(s, h);
        assert(k == b);
        proof {
            if b < q.len() {
                assert(q.skip(b)[0] == q[b]);
            }
        }
        if leftover != 0 {
            blocked = true;
        }
        got = got + k;
    } else {
        proof {
            assert(q =~= Seq::<u64>::empty());
            assert(q.take(b) =~= Seq::<u64>::empty());
            assert(q.skip(b) =~= Seq::<u64>::empty());
            assert(rev(q.take(b)) + (rev(p) + l) =~= rev(p) + l);
        }
    }
    if got > 0 {
        step.faa_ops = step.faa_ops + 1;
        h = mem.header(s);
        h.remote.free_count = h.remote.free_count - (got as i64);
        mem.set_header(s, h);
    }
    proof {
        assert(mem@.headers[s] == refilled(h0, links0));
        assert(mem@.headers =~= old(mem)@.headers.insert(s, refilled(h0, links0)));
        lemma_concat(p, q.take(b));
        lemma_refill_sound(old(mem)@, mem@, s, p + q.take(b));
        if got == 0 {
            assert(p + q.take(b) =~= Seq::<u64>::empty());
            assert(mem@.links =~= links0);
        }
    }
    (got, blocked)
}

/// All blocks of the three lists are blocks of the span.
proof fn lemma_all_are_blocks(mem: MemView, s: u64)
    requires
        small_span(mem, s),
    ensures
        ({
            let h = mem.headers[s];
            forall|x: u64| #[trigger]
                h.free_blocks().contains(x) ==> is_block(s, h.block_size as int, x)
        }),
{
    let h = mem.headers[s];
    assert forall|x: u64| #[trigger] h.free_blocks().contains(x) implies is_block(
        s,
        h.block_size as int,
        x,
    ) by {
        let i = choose|i: int| 0 <= i < h.free_blocks().len() && h.free_blocks()[i] == x;
        assert(is_block(s, h.block_size as int, h.free_blocks()[i]));
    }
}

/// The links of a chain stay when only links of blocks outside it change.
proof fn lemma_frame_apart(
    links: Map<u64, u64>,
    other: Map<u64, u64>,
    items: Seq<u64>,
    touched: Seq<u64>,
)
    requires
        blocks(links, items),
        apart(items, touched) || apart(touched, items),
        other.dom() == links.dom(),
        forall|x: u64|
            links.dom().contains(x) && !touched.contains(x) ==> #[trigger] other[x] == links[x],
    ensures
        blocks(other, items),
        half_linked(links, items) ==> half_linked(other, items),
        stall(links, items) == stall(other, items),
{
    assert forall|i: int| 0 <= i < items.len() implies other.dom().contains(#[trigger] items[i])
        && other[items[i]] == links[items[i]] by {
        assert(items.contains(items[i]));
        if touched.contains(items[i]) {
            assert(items.contains(items[i]) && touched.contains(items[i]));
        }
    }
    lemma_frame(links, other, items);
}

/// A refilled span is sound, and only links of its own blocks changed.
proof fn lemma_refill_sound(pre: MemView, post: MemView, s: u64, touched: Seq<u64>)
    requires
        small_span(pre, s),
        post.headers == pre.headers.insert(s, refilled(pre.headers[s], pre.links)),
        post.links.dom() == pre.links.dom(),
        forall|x: u64|
            pre.links.dom().contains(x) && !touched.contains(x) ==> #[trigger] post.links[x]
                == pre.links[x],
        touched == (if stall(pre.links, pre.headers[s].local.pending@)
            < pre.headers[s].local.pending@.len() {
            pre.headers[s].local.pending@.take(
                stall(pre.links, pre.headers[s].local.pending@) as int,
            )
        } else {
            pre.headers[s].local.pending@ + pre.headers[s].remote.free.seq().take(
                stall(pre.links, pre.headers[s].remote.free.seq()) as int,
            )
        }),
        post.headers[s].local.free.wf(post.links),
        ({
            let h = pre.headers[s];
            let h2 = refilled(h, pre.links);
            &&& h2.free_blocks().no_duplicates()
            &&& forall|x: u64| #[trigger]
                h2.free_blocks().contains(x) <==> h.free_blocks().contains(x)
            &&& h2.local.free_count == h2.local.free.seq().len()
            &&& h2.remote.free_count == h2.remote.free.seq().len() + h2.local.pending@.len()
        }),
    ensures
        small_span(post, s),
        forall|x: u64|
            pre.links.dom().contains(x) && !is_block(s, pre.headers[s].block_size as int, x)
                ==> #[trigger] post.links[x] == pre.links[x],
        forall|x: u64|
            pre.links.dom().contains(x) && !post.headers[s].local.free.seq().contains(x)
                ==> #[trigger] post.links[x] == pre.links[x],
{
    broadcast use LocalFreeList::lemma_of, RemoteMpscFreeList::lemma_of;

    let h = pre.headers[s];
    let h2 = post.headers[s];
    let p = h.local.pending@;
    let r = h.remote.free.seq();
    let a = stall(pre.links, p) as int;
    let b = stall(pre.links, r) as int;
    lemma_parts(h);
    lemma_all_are_blocks(pre, s);
    lemma_stall(pre.links, p);
    lemma_stall(pre.links, r);
    lemma_split(p, a);
    lemma_split(r, b);
    lemma_skip(pre.links, p, a);
    lemma_skip(pre.links, r, b);
    lemma_concat(p, r.take(b));
    assert forall|x: u64| #[trigger] touched.contains(x) implies h.free_blocks().contains(x) by {
        assert(p.contains(x) <==> p.take(a).contains(x) || p.skip(a).contains(x));
        assert(r.contains(x) <==> r.take(b).contains(x) || r.skip(b).contains(x));
    }
    lemma_rev(p.take(a));
    lemma_rev(p);
    lemma_rev(r.take(b));
    lemma_concat(rev(p.take(a)), h.local.free.seq());
    lemma_concat(rev(p), h.local.free.seq());
    lemma_concat(rev(r.take(b)), rev(p) + h.local.free.seq());
    assert forall|x: u64| #[trigger] touched.contains(x) implies h2.local.free.seq().contains(
        x,
    ) by {
        if a >= p.len() {
            assert((rev(p) + h.local.free.seq()).contains(x) || rev(r.take(b)).contains(x)) by {
                assert(p.contains(x) <==> rev(p).contains(x));
                assert(r.take(b).contains(x) <==> rev(r.take(b)).contains(x));
            }
        } else {
            assert(rev(p.take(a)).contains(x));
        }
    }
    if a < p.len() {
        lemma_frame_apart(pre.links, post.links, p.skip(a), touched);
        assert forall|x: u64| !(#[trigger] touched.contains(x) && r.contains(x)) by {
            assert(p.contains(x) <==> p.take(a).contains(x) || p.skip(a).contains(x));
            assert(p.contains(x) ==> !r.contains(x));
        }
        lemma_frame_apart(pre.links, post.links, r, touched);
    } else {
        assert forall|x: u64| !(#[trigger] touched.contains(x) && r.skip(b).contains(x)) by {
            assert(r.contains(x) <==> r.take(b).contains(x) || r.skip(b).contains(x));
            assert(p.contains(x) ==> !r.contains(x));
            assert(r.take(b).contains(x) ==> !r.skip(b).contains(x));
        }
        lemma_frame_apart(pre.links, post.links, r.skip(b), touched);
        assert(blocks(post.links, h2.remote.free.seq()));
    }
    assert forall|i: int| 0 <= i < h2.free_blocks().len() implies is_block(
        s,
        h2.block_size as int,
        #[trigger] h2.free_blocks()[i],
    ) by {
        assert(h2.free_blocks().contains(h2.free_blocks()[i]));
    }
}

} // verus!
