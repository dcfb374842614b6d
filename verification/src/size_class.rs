//! Segregated power-of-two size classes: 16, 32, 64, ..., 16384.

use crate::align::{
    ceil_log2, is_pow2, lemma_ceil_log2, lemma_ceil_log2_monotone, lemma_ceil_log2_unique, lemma_up,
    lemma_up_monotone, max, next_power_of_two, round_up, up,
};
use crate::config::{
    MAX_BLOCK_SIZE, MAX_SUPPORTED_CLASSES, MIN_BLOCK_SIZE, SPAN_HEADER_RESERVE, SPAN_SIZE,
};
use vstd::arithmetic::power2::{
    lemma2_to64, lemma_pow2_adds, lemma_pow2_pos, lemma_pow2_strictly_increases, pow2,
};
use vstd::bits::lemma_u64_shl_is_mul;
use vstd::prelude::*;

verus! {

/// Block size of a class.
pub open spec fn class_size(class: int) -> int {
    MIN_BLOCK_SIZE * pow2(class as nat)
}

/// Bytes that a block must have to serve a request.
pub open spec fn block_need(size: int, align: int) -> int {
    let m = if size >= align { size } else { align };
    if m >= MIN_BLOCK_SIZE { m } else { MIN_BLOCK_SIZE as int }
}

/// The least class whose blocks serve a request, if there is one.
pub open spec fn class_for(size: int, align: int) -> Option<u64> {
    if block_need(size, align) <= MAX_BLOCK_SIZE {
        Some((ceil_log2(block_need(size, align)) - 4) as u64)
    } else {
        None
    }
}

/// Offset of the first block in a span of blocks of `bs` bytes.
pub open spec fn first_offset(bs: int) -> int {
    up(SPAN_HEADER_RESERVE as int, bs)
}

/// Number of blocks in a span of blocks of `bs` bytes.
pub open spec fn span_blocks(bs: int) -> int {
    (SPAN_SIZE - first_offset(bs)) / bs
}

/// `class_for` picks the least class that is large enough.
pub proof fn lemma_class_for(size: int, align: int)
    requires
        size >= 0,
        align >= 0,
    ensures
        class_for(size, align) is Some <==> size <= MAX_BLOCK_SIZE && align <= MAX_BLOCK_SIZE,
        class_for(size, align) matches Some(c) ==> {
            &&& c < MAX_SUPPORTED_CLASSES
            &&& size <= class_size(c as int)
            &&& align <= class_size(c as int)
            &&& forall|d: int| 0 <= d < c ==> #[trigger] class_size(d) < block_need(size, align)
        },
{
    let need = block_need(size, align);
    lemma2_to64();
    lemma_ceil_log2_unique(16, 4);
    lemma_ceil_log2_unique(16384, 14);
    if need <= MAX_BLOCK_SIZE {
        lemma_ceil_log2_monotone(16, need);
        lemma_ceil_log2_monotone(need, 16384);
        lemma_ceil_log2(need);
        let c = ceil_log2(need) - 4;
        lemma_pow2_adds(4, c as nat);
        assert forall|d: int| 0 <= d < c implies #[trigger] class_size(d) < need by {
            lemma_pow2_adds(4, d as nat);
        }
    }
}

/// Class sizes are powers of two between the smallest and the largest block.
pub proof fn lemma_class_size(class: int)
    requires
        0 <= class < MAX_SUPPORTED_CLASSES,
    ensures
        is_pow2(class_size(class) as u64),
        MIN_BLOCK_SIZE <= class_size(class) <= MAX_BLOCK_SIZE,
        class_size(class) == pow2((class + 4) as nat),
{
    lemma2_to64();
    lemma_pow2_adds(4, class as nat);
    lemma_pow2_pos(class as nat);
    if class < 10 {
        lemma_pow2_strictly_increases(class as nat, 10);
    }
    assert(class_size(class) as u64 == pow2((class + 4) as nat));
}

/// A span of power-of-two blocks: the first block lies past the header
/// reserve, and all blocks lie inside the span.
pub proof fn lemma_span_blocks(bs: int)
    requires
        0 < bs <= SPAN_SIZE,
        SPAN_SIZE as int % bs == 0,
    ensures
        SPAN_HEADER_RESERVE <= first_offset(bs) <= SPAN_SIZE,
        first_offset(bs) % bs == 0,
        0 <= span_blocks(bs) <= SPAN_SIZE,
        first_offset(bs) + span_blocks(bs) * bs == SPAN_SIZE,
{
    lemma_up(SPAN_HEADER_RESERVE as int, bs);
    lemma_up_monotone(SPAN_HEADER_RESERVE as int, SPAN_SIZE as int, bs);
    lemma_up(SPAN_SIZE as int, bs);
    let f = first_offset(bs);
    let d = SPAN_SIZE - f;
    vstd::arithmetic::div_mod::lemma_sub_mod_noop(SPAN_SIZE as int, f, bs);
    vstd::arithmetic::div_mod::lemma_small_mod(0, bs as nat);
    vstd::arithmetic::div_mod::lemma_fundamental_div_mod(d, bs);
    assert(span_blocks(bs) * bs == bs * span_blocks(bs)) by (nonlinear_arith);
    assert(0 <= d / bs <= d) by (nonlinear_arith)
        requires
            d >= 0,
            bs > 0,
    ;
}

/// Block size of `class`; class 0 has the smallest blocks. From class 60 on
/// the size does not fit and its low 64 bits are zero.
pub fn class_to_size(class: u64) -> (r: u64)
    requires
        class < 64,
    ensures
        class < 60 ==> r == class_size(class as int),
        class >= 60 ==> r == 0,
{
    proof {
        if class < 60 {
            lemma2_to64();
            lemma_pow2_adds(4, class as nat);
            crate::align::lemma_pow2_bounds((class + 4) as nat);
            lemma_u64_shl_is_mul(16, class);
        } else {
            assert(class >= 60 && class < 64 ==> 16u64 << class == 0u64) by (bit_vector);
        }
    }
    MIN_BLOCK_SIZE << class
}

/// Map a request to the least size class that serves it. Blocks are aligned
/// to their size, so a large alignment is met by sizing up. `None` for
/// requests above `MAX_BLOCK_SIZE`.
pub fn size_to_class(size: u64, align: u64) -> (r: Option<u64>)
    ensures
        r == class_for(size as int, align as int),
        r matches Some(c) ==> c < MAX_SUPPORTED_CLASSES,
{
    proof {
        lemma_class_for(size as int, align as int);
        lemma2_to64();
        lemma_ceil_log2_unique(16, 4);
        lemma_ceil_log2_unique(16384, 14);
    }
    if align > MAX_BLOCK_SIZE {
        return None;
    }
    let need: u64 = max(max(size, align), MIN_BLOCK_SIZE);
    proof {
        lemma_ceil_log2_monotone(16, need as int);
        lemma_ceil_log2(need as int);
    }
    match next_power_of_two(need) {
        None => {
            proof {
                if need <= MAX_BLOCK_SIZE {
                    lemma_ceil_log2_monotone(need as int, 16384);
                }
            }
            None
        },
        Some((k, p)) => {
            if p > MAX_BLOCK_SIZE {
                proof {
                    if need <= MAX_BLOCK_SIZE {
                        lemma_ceil_log2_monotone(need as int, 16384);
                        if k < 14 {
                            lemma_pow2_strictly_increases(k as nat, 14);
                        }
                    }
                }
                return None;
            }
            Some(k - 4)
        },
    }
}

/// Offset of the first block in a span. Spans are `SPAN_SIZE`-aligned, so
/// blocks at multiples of their power-of-two size are naturally aligned.
pub fn first_block_offset(block_size: u64) -> (r: u64)
    requires
        is_pow2(block_size),
    ensures
        r == first_offset(block_size as int),
{
    proof {
        crate::align::lemma_is_pow2_bounds(block_size);
    }
    round_up(SPAN_HEADER_RESERVE, block_size)
}

/// Number of blocks in a span.
pub fn blocks_per_span(block_size: u64) -> (r: u64)
    requires
        is_pow2(block_size),
        block_size <= SPAN_SIZE,
    ensures
        r == span_blocks(block_size as int),
{
    proof {
        lemma_block_size_divides(block_size);
        lemma_span_blocks(block_size as int);
    }
    (SPAN_SIZE - first_block_offset(block_size)) / block_size
}

/// A power of two that is not above the span size divides it.
pub proof fn lemma_block_size_divides(bs: u64)
    requires
        is_pow2(bs),
        bs <= SPAN_SIZE,
    ensures
        bs > 0,
        SPAN_SIZE as int % bs as int == 0,
{
    lemma2_to64();
    assert(SPAN_SIZE == pow2(16));
    let n = choose|n: nat| n < 64 && bs == #[trigger] pow2(n);
    lemma_pow2_pos(n);
    crate::align::lemma_is_pow2_divides(bs, SPAN_SIZE, SPAN_SIZE as int);
}

/// A span holds at least one block of every class.
pub proof fn lemma_some_blocks(class: int)
    requires
        0 <= class < MAX_SUPPORTED_CLASSES,
    ensures
        span_blocks(class_size(class)) >= 1,
{
    lemma_class_size(class);
    let bs = class_size(class);
    lemma_block_size_divides(bs as u64);
    lemma_span_blocks(bs);
    lemma_up(SPAN_HEADER_RESERVE as int, bs);
    let m = span_blocks(bs);
    assert(m >= 1) by (nonlinear_arith)
        requires
            first_offset(bs) + m * bs == SPAN_SIZE,
            first_offset(bs) < 1024 + bs,
            16 <= bs <= 16384,
    ;
}

} // verus!
