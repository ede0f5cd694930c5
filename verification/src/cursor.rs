//! Arithmetic of cursors that wrap around a power-of-two number of slots.
//!
//! A cursor is kept as a physical slot index, but the proofs follow the
//! unbounded logical position it stands for: position `k` of the stream lives
//! in slot `k % slots`. Because the slot count is a power of two, the
//! executable code folds a position with a bitwise AND against `slots - 1`.

use vstd::prelude::*;
use vstd::arithmetic::div_mod::*;
use vstd::arithmetic::power2::*;
use vstd::bits::*;

verus! {

/// `mask` is one less than a power of two, and that power is at least 2.
pub open spec fn is_mask(mask: usize) -> bool {
    exists|n: nat| 1 <= n < usize::BITS && mask == #[trigger] low_bits_mask(n)
}

/// The physical slot of logical position `k` in a ring of `slots` slots.
pub open spec fn phys(k: int, slots: int) -> int {
    k % slots
}

/// The number of slots for a request of `requested` slots: the least power
/// of two that is at least `requested` and at least 2.
pub open spec fn slots_for(requested: nat) -> nat
    decreases requested,
{
    if requested <= 2 {
        2
    } else {
        2 * slots_for((requested + 1) / 2)
    }
}

/// A power of two that is at least `requested`, and either 2 or such that
/// its half falls short of `requested`, is `slots_for(requested)`.
proof fn lemma_slots_for(requested: nat, n: nat)
    requires
        1 <= n,
        requested <= pow2(n),
        n == 1 || pow2(n) / 2 < requested,
    ensures
        slots_for(requested) == pow2(n),
    decreases n,
{
    lemma2_to64();
    lemma_pow2_unfold(n);
    if requested <= 2 {
        if n > 1 {
            lemma_pow2_strictly_increases(1, n);
        }
    } else {
        if n == 1 {
        } else {
            let half = ((requested + 1) / 2) as nat;
            let below = (n - 1) as nat;
            if below > 1 {
                lemma_pow2_unfold(below);
            }
            lemma_slots_for(half, below);
        }
    }
}

/// The largest request that `slot_mask` can serve: half the address range.
pub open spec fn max_request() -> int {
    usize::MAX / 2 + 1
}

/// Every power of two whose exponent is below the word size is at most
/// `max_request()`, and only the top exponent reaches it.
proof fn lemma_power_below_word(n: nat)
    requires
        n < usize::BITS,
    ensures
        0 < pow2(n) <= max_request(),
        n + 1 < usize::BITS ==> 2 * pow2(n) <= max_request(),
        n + 1 == usize::BITS ==> pow2(n) == max_request(),
{
    lemma2_to64();
    lemma2_to64_rest();
    lemma_pow2_pos(n);
    let top = (usize::BITS - 1) as nat;
    if n < top {
        lemma_pow2_unfold(n + 1);
        if n + 1 < top {
            lemma_pow2_strictly_increases(n + 1, top);
        }
    }
}

/// A mask is at least 1, and twice the slot count still fits in a `usize`.
pub proof fn lemma_mask_bounds(mask: usize)
    requires
        is_mask(mask),
    ensures
        1 <= mask,
        2 * mask + 1 <= usize::MAX,
{
    let n = choose|n: nat| 1 <= n < usize::BITS && mask == #[trigger] low_bits_mask(n);
    lemma_power_below_word(n);
    lemma_pow2_strictly_increases(0, n);
    lemma2_to64();
}

/// Folding with the mask is the remainder by the slot count.
pub proof fn lemma_mask_wraps(x: usize, mask: usize)
    requires
        is_mask(mask),
    ensures
        (x & mask) == phys(x as int, mask + 1),
        0 <= (x & mask) <= mask,
{
    let n = choose|n: nat| 1 <= n < usize::BITS && mask == #[trigger] low_bits_mask(n);
    lemma_usize_pow2_no_overflow(n);
    lemma_usize_low_bits_mask_is_mod(x, n);
    lemma_mod_bound(x as int, mask + 1);
}

/// A slot index is within the ring.
pub proof fn lemma_phys_range(k: int, slots: int)
    requires
        0 < slots,
    ensures
        0 <= phys(k, slots) < slots,
{
    lemma_mod_bound(k, slots);
}

/// A position inside the ring is its own slot.
pub proof fn lemma_phys_small(k: int, slots: int)
    requires
        0 <= k < slots,
    ensures
        phys(k, slots) == k,
{
    lemma_small_mod(k as nat, slots as nat);
}

/// The way from slot `start` forward round the ring to slot `end`.
pub proof fn lemma_ring_gap(start: int, end: int, slots: int)
    requires
        0 <= start < slots,
        0 <= end < slots,
    ensures
        phys(end - start, slots) == if end >= start {
            end - start
        } else {
            end - start + slots
        },
{
    if end >= start {
        lemma_phys_small(end - start, slots);
    } else {
        lemma_phys_period(end - start, slots);
        lemma_phys_small(end - start + slots, slots);
    }
}

/// One full turn round the ring comes back to the same slot.
pub proof fn lemma_phys_period(k: int, slots: int)
    requires
        0 < slots,
    ensures
        phys(k + slots, slots) == phys(k, slots),
{
    lemma_mod_add_multiples_vanish(k, slots);
}

/// Positions less than one turn apart never share a slot.
pub proof fn lemma_phys_distinct(a: int, b: int, slots: int)
    requires
        0 < slots,
        a < b < a + slots,
    ensures
        phys(a, slots) != phys(b, slots),
{
    lemma_fundamental_div_mod(a, slots);
    lemma_fundamental_div_mod(b, slots);
    lemma_mod_bound(a, slots);
    lemma_mod_bound(b, slots);
    if a % slots == b % slots {
        let d = b / slots - a / slots;
        assert(b - a == slots * (b / slots) - slots * (a / slots));
        assert(b - a == slots * d) by (nonlinear_arith)
            requires
                b - a == slots * (b / slots) - slots * (a / slots),
                d == b / slots - a / slots,
        ;
        assert(false) by (nonlinear_arith)
            requires
                b - a == slots * d,
                0 < b - a < slots,
        ;
    }
}

/// Stepping a folded cursor by `count` and folding again lands on the slot of
/// the position `count` further on.
pub proof fn lemma_phys_step(k: int, count: int, slots: int)
    requires
        0 < slots,
    ensures
        phys(phys(k, slots) + count, slots) == phys(k + count, slots),
{
    lemma_add_mod_noop(k, count, slots);
    lemma_mod_twice(k, slots);
    lemma_add_mod_noop(k % slots, count, slots);
}

/// The distance between two folded cursors, taken round the ring, is the
/// distance between the positions they stand for when that is under one turn.
pub proof fn lemma_phys_distance(from: int, to: int, slots: int)
    requires
        0 < slots,
        from <= to < from + slots,
    ensures
        phys(slots - phys(from, slots) + phys(to, slots), slots) == to - from,
        phys(phys(to, slots) - phys(from, slots), slots) == to - from,
{
    lemma_fundamental_div_mod(from, slots);
    lemma_fundamental_div_mod(to, slots);
    let q = to / slots - from / slots;
    let x = slots - from % slots + to % slots;
    assert(x == (1 - q) * slots + (to - from)) by (nonlinear_arith)
        requires
            from == slots * (from / slots) + from % slots,
            to == slots * (to / slots) + to % slots,
            q == to / slots - from / slots,
            x == slots - from % slots + to % slots,
    ;
    lemma_fundamental_div_mod_converse(x, slots, 1 - q, to - from);
    let y = to % slots - from % slots;
    assert(y == (0 - q) * slots + (to - from)) by (nonlinear_arith)
        requires
            from == slots * (from / slots) + from % slots,
            to == slots * (to / slots) + to % slots,
            q == to / slots - from / slots,
            y == to % slots - from % slots,
    ;
    lemma_fundamental_div_mod_converse(y, slots, 0 - q, to - from);
}

/// The mask for a ring that can hold `requested` slots: the slot count is the
/// least power of two that is at least `requested` and at least 2, and the
/// mask is one less. There is none when that power does not fit in a `usize`.
pub fn slot_mask(requested: usize) -> (res: Option<usize>)
    ensures
        res is None <==> requested > max_request(),
        res matches Some(mask) ==> {
            &&& mask + 1 == slots_for(requested as nat)
            &&& is_mask(mask)
            &&& requested <= mask + 1
            &&& (mask == 1 || (mask + 1) / 2 < requested)
        },
{
    let mut slots: usize = 2;
    let ghost mut n: nat = 1;
    proof {
        lemma2_to64();
    }
    while slots < requested
        invariant
            1 <= n < usize::BITS,
            slots == pow2(n),
            slots == 2 || slots / 2 < requested,
        decreases usize::MAX - slots,
    {
        proof {
            lemma_power_below_word(n);
            lemma_pow2_unfold(n + 1);
        }
        if slots > usize::MAX / 2 {
            return None;
        }
        slots = slots * 2;
        proof {
            n = n + 1;
        }
    }
    proof {
        lemma_power_below_word(n);
        assert(slots - 1 == low_bits_mask(n));
        lemma2_to64();
        if n > 1 {
            lemma_pow2_strictly_increases(1, n);
        }
        lemma_slots_for(requested as nat, n);
    }
    Some(slots - 1)
}

} // verus!
