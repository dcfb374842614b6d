//! Step accounting and allocator-wide statistics.

use crate::align::div_ceil;
use vstd::prelude::*;

verus! {

/// Steps of one operation. Every allocation and deallocation path counts its
/// steps here.
#[derive(Clone, Copy, Debug)]
pub struct StepCounter {
    pub local_steps: u64,
    pub remote_steps: u64,
    pub cas_attempts: u64,
    pub cas2_attempts: u64,
    pub swap_ops: u64,
    pub faa_ops: u64,
    pub help_steps: u64,
    pub query_steps: u64,
    pub blocks_scanned: u64,
    /// Run classes examined by one large allocation.
    pub large_class_steps: u64,
    /// Directory slots examined by one huge operation.
    pub huge_slot_scans: u64,
}

impl StepCounter {
    /// No step counted.
    pub open spec fn zero() -> StepCounter {
        StepCounter {
            local_steps: 0,
            remote_steps: 0,
            cas_attempts: 0,
            cas2_attempts: 0,
            swap_ops: 0,
            faa_ops: 0,
            help_steps: 0,
            query_steps: 0,
            blocks_scanned: 0,
            large_class_steps: 0,
            huge_slot_scans: 0,
        }
    }

    /// Every counter can still grow by `k`.
    pub open spec fn room(self, k: int) -> bool {
        &&& self.local_steps + k <= u64::MAX
        &&& self.remote_steps + k <= u64::MAX
        &&& self.cas_attempts + k <= u64::MAX
        &&& self.cas2_attempts + k <= u64::MAX
        &&& self.swap_ops + k <= u64::MAX
        &&& self.faa_ops + k <= u64::MAX
        &&& self.help_steps + k <= u64::MAX
        &&& self.query_steps + k <= u64::MAX
        &&& self.blocks_scanned + k <= u64::MAX
        &&& self.large_class_steps + k <= u64::MAX
        &&& self.huge_slot_scans + k <= u64::MAX
    }

    /// No counter of `self` is below that of `base`, and none is more than
    /// `k` above it.
    pub open spec fn grown(self, base: StepCounter, k: int) -> bool {
        &&& base.local_steps <= self.local_steps <= base.local_steps + k
        &&& base.remote_steps <= self.remote_steps <= base.remote_steps + k
        &&& base.cas_attempts <= self.cas_attempts <= base.cas_attempts + k
        &&& base.cas2_attempts <= self.cas2_attempts <= base.cas2_attempts + k
        &&& base.swap_ops <= self.swap_ops <= base.swap_ops + k
        &&& base.faa_ops <= self.faa_ops <= base.faa_ops + k
        &&& base.help_steps <= self.help_steps <= base.help_steps + k
        &&& base.query_steps <= self.query_steps <= base.query_steps + k
        &&& base.blocks_scanned <= self.blocks_scanned <= base.blocks_scanned + k
        &&& base.large_class_steps <= self.large_class_steps <= base.large_class_steps + k
        &&& base.huge_slot_scans <= self.huge_slot_scans <= base.huge_slot_scans + k
    }

    /// Bounds of one small operation: `n` threads, helping budget `h`, query
    /// limit `p`, blocks per span, and local span limit `k`.
    pub open spec fn within_bounds(self, n: int, h: int, p: int, blocks_per_span: int, k: int) -> bool {
        &&& self.help_steps <= h * n + p + 1
        &&& self.query_steps <= p + n + 1
        &&& self.cas2_attempts <= self.help_steps + self.query_steps + 2
        &&& self.blocks_scanned <= blocks_per_span * (k + 2)
    }

    /// Bounds of one large operation over `r` run classes.
    pub open spec fn within_large_bounds(self, n: int, h: int, p: int, r: int) -> bool {
        &&& self.large_class_steps <= r
        &&& self.help_steps <= r * (h * n + p + 1)
        &&& self.query_steps <= r * (p + n + 1)
        &&& self.cas2_attempts <= self.help_steps + self.query_steps + 2 * r
        &&& self.cas_attempts <= self.help_steps + self.query_steps + 2 * r + 1
        &&& self.faa_ops <= r + 2
        &&& self.blocks_scanned == 0
    }

    /// Bounds of one huge operation over `r` classes of `slots` slots.
    pub open spec fn within_huge_bounds(self, r: int, slots: int) -> bool {
        &&& self.huge_slot_scans <= r * slots
        &&& self.cas_attempts <= 2 * self.huge_slot_scans
        &&& self.faa_ops <= self.huge_slot_scans
        &&& self.help_steps == 0
        &&& self.query_steps == 0
        &&& self.cas2_attempts == 0
        &&& self.blocks_scanned == 0
        &&& self.large_class_steps == 0
    }

    pub fn new() -> (r: Self)
        ensures
            r == Self::zero(),
    {
        StepCounter {
            local_steps: 0,
            remote_steps: 0,
            cas_attempts: 0,
            cas2_attempts: 0,
            swap_ops: 0,
            faa_ops: 0,
            help_steps: 0,
            query_steps: 0,
            blocks_scanned: 0,
            large_class_steps: 0,
            huge_slot_scans: 0,
        }
    }

    /// Whether the counts of one small operation keep the bounds implied by
    /// the configuration. At most `h` requests are helped and at most `p`
    /// empty lists skipped; at most `p` lists are queried; each help or query
    /// step makes at most one double-word attempt; and at most `k + 2` spans
    /// are absorbed.
    pub fn assert_bounds(&self, n: u64, h: u64, p: u64, blocks_per_span: u64, k: u64) -> (r: bool)
        requires
            h * n + p + 1 <= u64::MAX,
            p + n + 1 <= u64::MAX,
            self.help_steps + self.query_steps + 2 <= u64::MAX,
            blocks_per_span * (k + 2) <= u64::MAX,
            k + 2 <= u64::MAX,
        ensures
            r == self.within_bounds(n as int, h as int, p as int, blocks_per_span as int, k as int),
    {
        proof {
            assert(0 <= h * n) by (nonlinear_arith)
                requires
                    h >= 0,
                    n >= 0,
            ;
        }
        self.help_steps <= h * n + p + 1 && self.query_steps <= p + n + 1 && self.cas2_attempts
            <= self.help_steps + self.query_steps + 2 && self.blocks_scanned <= blocks_per_span * (k
            + 2)
    }

    /// Whether the counts of one large operation keep its bounds: at most `r`
    /// run classes, one bounded acquisition per class, and one raw carve.
    pub fn assert_large_bounds(&self, n: u64, h: u64, p: u64, r: u64) -> (ok: bool)
        requires
            h * n + p + 1 <= u64::MAX,
            p + n + 1 <= u64::MAX,
            r * (h * n + p + 1) <= u64::MAX,
            r * (p + n + 1) <= u64::MAX,
            self.help_steps + self.query_steps + 2 * r + 1 <= u64::MAX,
        ensures
            ok == self.within_large_bounds(n as int, h as int, p as int, r as int),
    {
        proof {
            assert(0 <= h * n) by (nonlinear_arith)
                requires
                    h >= 0,
                    n >= 0,
            ;
        }
        let per_help: u64 = h * n + p + 1;
        let per_query: u64 = p + n + 1;
        let attempts: u64 = self.help_steps + self.query_steps + 2 * r;
        self.large_class_steps <= r && self.help_steps <= r * per_help && self.query_steps <= r
            * per_query && self.cas2_attempts <= attempts && self.cas_attempts <= attempts + 1 && (
        self.faa_ops <= 2 || self.faa_ops - 2 <= r) && self.blocks_scanned == 0
    }

    /// Whether the counts of one huge operation keep its bounds: per scanned
    /// slot at most one claim, one carve and one rollback, and nothing of the
    /// helping protocol.
    pub fn assert_huge_bounds(&self, r: u64, slots: u64) -> (ok: bool)
        requires
            r * slots <= u64::MAX,
            2 * self.huge_slot_scans <= u64::MAX,
        ensures
            ok == self.within_huge_bounds(r as int, slots as int),
    {
        self.huge_slot_scans <= r * slots && self.cas_attempts <= 2 * self.huge_slot_scans
            && self.faa_ops <= self.huge_slot_scans && self.help_steps == 0 && self.query_steps == 0
            && self.cas2_attempts == 0 && self.blocks_scanned == 0 && self.large_class_steps == 0
    }
}

impl Default for StepCounter {
    fn default() -> (r: Self)
        ensures
            r == StepCounter::zero(),
    {
        StepCounter::new()
    }
}

/// Allocator-wide event counters. Advisory: they wrap around.
#[derive(Clone, Copy, Debug)]
pub struct AllocatorStats {
    /// Raw spans taken from the fixed pool.
    pub allocated_spans: u64,
    /// Spans discarded (made ownerless with no visible free blocks).
    pub discarded_spans: u64,
    /// Discarded spans claimed back by a remote deallocator.
    pub claimed_spans: u64,
    /// Full spans published to a public span list.
    pub published_spans: u64,
    /// Spans acquired from public span lists, or from helpers meanwhile.
    pub acquired_public_spans: u64,
    /// Spans stashed in a help record (one request, two spans).
    pub help_record_spans: u64,
    /// Spans reclaimed from a help record by a later acquisition.
    pub help_record_reclaimed: u64,
    /// Times the consumption of a remote list stopped at an unlinked block.
    pub remote_blocked_events: u64,
    /// Raw runs carved from the fixed pool.
    pub allocated_runs: u64,
    /// Freed runs published to a public run list.
    pub published_runs: u64,
    /// Runs acquired from public run lists, or from helpers meanwhile.
    pub acquired_public_runs: u64,
    /// Runs stashed in a run help record.
    pub run_help_record_runs: u64,
    /// Runs reclaimed from a run help record by a later acquisition.
    pub run_help_record_reclaimed: u64,
    /// Huge runs carved from the fixed pool into directory slots.
    pub allocated_huge_runs: u64,
}

impl AllocatorStats {
    /// No event counted.
    pub open spec fn zero() -> AllocatorStats {
        AllocatorStats {
            allocated_spans: 0,
            discarded_spans: 0,
            claimed_spans: 0,
            published_spans: 0,
            acquired_public_spans: 0,
            help_record_spans: 0,
            help_record_reclaimed: 0,
            remote_blocked_events: 0,
            allocated_runs: 0,
            published_runs: 0,
            acquired_public_runs: 0,
            run_help_record_runs: 0,
            run_help_record_reclaimed: 0,
            allocated_huge_runs: 0,
        }
    }

    pub fn new() -> (r: Self)
        ensures
            r == Self::zero(),
    {
        AllocatorStats {
            allocated_spans: 0,
            discarded_spans: 0,
            claimed_spans: 0,
            published_spans: 0,
            acquired_public_spans: 0,
            help_record_spans: 0,
            help_record_reclaimed: 0,
            remote_blocked_events: 0,
            allocated_runs: 0,
            published_runs: 0,
            acquired_public_runs: 0,
            run_help_record_runs: 0,
            run_help_record_reclaimed: 0,
            allocated_huge_runs: 0,
        }
    }

    /// Count one event.
    pub fn bump(counter: &mut u64)
        ensures
            *final(counter) == bumped(*old(counter)),
    {
        *counter = counter.wrapping_add(1);
    }
}

impl Default for AllocatorStats {
    fn default() -> (r: Self)
        ensures
            r == AllocatorStats::zero(),
    {
        AllocatorStats::new()
    }
}

/// An event counter after one more event.
pub open spec fn bumped(counter: u64) -> u64 {
    if counter == u64::MAX {
        0
    } else {
        (counter + 1) as u64
    }
}

/// A counter after `n` more events.
pub open spec fn bumped_by(counter: u64, n: nat) -> u64
    decreases n,
{
    if n == 0 {
        counter
    } else {
        bumped(bumped_by(counter, (n - 1) as nat))
    }
}

/// `(n + (ceil(n / p) + n - 1) * (n - 1)) * c * s`.
pub open spec fn extra_bound(n: int, c: int, s: int, p: int) -> int {
    (n + ((n + p - 1) / p + n - 1) * (n - 1)) * c * s
}

/// Bound on the additional footprint in bytes of `n` active threads, `c` size
/// classes, spans of `s` bytes and query limit `p`, beyond what a linearizable
/// allocator would hold.
pub fn theoretical_extra_bound(n: u64, c: u64, s: u64, p: u64) -> (r: u64)
    requires
        n >= 1,
        p >= 1,
        n + ((n + p - 1) / (p as int) + n - 1) * (n - 1) <= u64::MAX,
        (n + ((n + p - 1) / (p as int) + n - 1) * (n - 1)) * c <= u64::MAX,
        extra_bound(n as int, c as int, s as int, p as int) <= u64::MAX,
    ensures
        r == extra_bound(n as int, c as int, s as int, p as int),
{
    let ceil: u64 = div_ceil(n, p);
    proof {
        assert(ceil >= 1) by (nonlinear_arith)
            requires
                ceil == (n + p - 1) / (p as int),
                n >= 1,
                p >= 1,
        ;
        assert(ceil <= n) by (nonlinear_arith)
            requires
                ceil == (n + p - 1) / (p as int),
                n >= 1,
                p >= 1,
        ;
        assert(0 <= (ceil + n - 1) * (n - 1)) by (nonlinear_arith)
            requires
                ceil >= 1,
                n >= 1,
        ;
        assert(n > 1 ==> ceil + n - 1 <= (ceil + n - 1) * (n - 1)) by (nonlinear_arith)
            requires
                ceil >= 1,
                n >= 1,
        ;
    }
    let per_pair: u64 = (ceil - 1 + n) * (n - 1);
    (n + per_pair) * c * s
}

} // verus!
