//! Arithmetic of ring positions: running counts, the slots they fall on and
//! the wrap counter of a lap.

use vstd::prelude::*;
use vstd::arithmetic::div_mod::{lemma_fundamental_div_mod, lemma_fundamental_div_mod_converse, lemma_mod_mod};
use vstd::set_lib::{lemma_int_range, lemma_len_subset, set_int_range};

verus! {

/// Whether `n` is a size that a split virtqueue may have: a power of two
/// up to 32768.
pub open spec fn is_split_size(n: nat) -> bool {
    n == 1 || n == 2 || n == 4 || n == 8 || n == 16 || n == 32 || n == 64 || n == 128 || n == 256
        || n == 512 || n == 1024 || n == 2048 || n == 4096 || n == 8192 || n == 16384 || n
        == 32768
}

/// The slot of a ring of `size` slots that the running count `count` falls on.
pub open spec fn slot_of(count: nat, size: nat) -> nat
    recommends
        size > 0,
{
    slot_at(count as int, size as int) as nat
}

/// The 16-bit index that a ring holds for the running count `count`.
pub open spec fn index_of(count: nat) -> u16 {
    (count % 65536) as u16
}

/// Tests whether `size` is a power of two up to 32768.
pub fn check_split_size(size: u16) -> (r: bool)
    ensures
        r == is_split_size(size as nat),
{
    assert((size != 0 && size & ((size - 1) as u16) == 0 && size <= 32768) <==> (size == 1 || size == 2
        || size == 4 || size == 8 || size == 16 || size == 32 || size == 64 || size == 128 || size
        == 256 || size == 512 || size == 1024 || size == 2048 || size == 4096 || size == 8192
        || size == 16384 || size == 32768)) by (bit_vector);
    size != 0 && size <= 32768 && size & (size - 1) == 0
}

/// The slot of a 16-bit index in a ring whose size is a power of two, by
/// masking.
pub fn mask_slot(index: u16, size: u16) -> (r: usize)
    requires
        is_split_size(size as nat),
    ensures
        r == index as nat % size as nat,
        r < size,
{
    assert(index & ((size - 1) as u16) == index % size) by (bit_vector)
        requires
            size == 1 || size == 2 || size == 4 || size == 8 || size == 16 || size == 32 || size
                == 64 || size == 128 || size == 256 || size == 512 || size == 1024 || size == 2048
                || size == 4096 || size == 8192 || size == 16384 || size == 32768,
    ;
    (index & (size - 1)) as usize
}

/// In a ring whose size is a power of two, the 16-bit index of a running
/// count falls on the same slot as the count itself.
pub proof fn lemma_index_slot(count: nat, size: nat)
    requires
        is_split_size(size),
    ensures
        index_of(count) as nat % size == slot_of(count, size),
        slot_of(count, size) < size,
{
    reveal(slot_at);
    let k: int = if size == 1 {
        65536
    } else if size == 2 {
        32768
    } else if size == 4 {
        16384
    } else if size == 8 {
        8192
    } else if size == 16 {
        4096
    } else if size == 32 {
        2048
    } else if size == 64 {
        1024
    } else if size == 128 {
        512
    } else if size == 256 {
        256
    } else if size == 512 {
        128
    } else if size == 1024 {
        64
    } else if size == 2048 {
        32
    } else if size == 4096 {
        16
    } else if size == 8192 {
        8
    } else if size == 16384 {
        4
    } else {
        2
    };
    assert(0 < k && size * k == 65536);
    lemma_mod_mod(count as int, size as int, k);
}

/// Two running counts less than a lap apart fall on different slots.
pub proof fn lemma_slots_differ(a: nat, b: nat, size: nat)
    requires
        size > 0,
        a < b < a + size,
    ensures
        slot_of(a, size) != slot_of(b, size),
{
    reveal(slot_at);
    lemma_fundamental_div_mod(a as int, size as int);
    lemma_fundamental_div_mod(b as int, size as int);
    if a % size == b % size {
        let qa = a as int / size as int;
        let qb = b as int / size as int;
        assert(b - a == size * (qb - qa)) by (nonlinear_arith)
            requires
                a == size * qa + (a % size),
                b == size * qb + (b % size),
                a % size == b % size,
        ;
        assert(false) by (nonlinear_arith)
            requires
                b - a == size * (qb - qa),
                0 < b - a < size,
        ;
    }
}

/// A list of distinct slots of a ring is no longer than the ring.
pub proof fn lemma_distinct_slots(s: Seq<u16>, size: nat)
    requires
        s.no_duplicates(),
        forall|i: int| 0 <= i < s.len() ==> (#[trigger] s[i] as nat) < size,
    ensures
        s.len() <= size,
{
    let t = s.map_values(|x: u16| x as int);
    assert(t.no_duplicates()) by {
        assert forall|i: int, j: int| 0 <= i < t.len() && 0 <= j < t.len() && i != j implies t[i]
            != t[j] by {
            assert(s[i] != s[j]);
        }
    }
    t.unique_seq_to_set();
    lemma_int_range(0, size as int);
    assert(t.to_set().subset_of(set_int_range(0, size as int))) by {
        assert forall|x: int| t.to_set().contains(x) implies set_int_range(
            0,
            size as int,
        ).contains(x) by {
            let i = choose|i: int| 0 <= i < t.len() && t[i] == x;
            assert((s[i] as nat) < size);
        }
    }
    lemma_len_subset(t.to_set(), set_int_range(0, size as int));
}

/// The slot of a ring of `size` slots that the running count `count` falls
/// on, also for a count before the first lap.
#[verifier::opaque]
pub open spec fn slot_at(count: int, size: int) -> int
    recommends
        size > 0,
{
    count % size
}

/// The wrap counter of the lap that the running count `count` lies in, also
/// for a count before the first lap, whose wrap counter is clear.
#[verifier::opaque]
pub open spec fn wrap_at(count: int, size: int) -> bool
    recommends
        size > 0,
{
    (count / size) % 2 == 0
}

/// The slot `steps` slots after slot `pos`, for no more steps than the ring
/// has slots.
pub open spec fn ring_add(pos: int, steps: int, size: int) -> int {
    if pos + steps < size {
        pos + steps
    } else {
        pos + steps - size
    }
}

/// How many slots after slot `pos` the slot `slot` lies.
pub open spec fn ring_off(slot: int, pos: int, size: int) -> int {
    if slot >= pos {
        slot - pos
    } else {
        slot + size - pos
    }
}

/// The slot and the wrap counter of a running count, from those of a count
/// at most one lap before it.
pub proof fn lemma_near(a: int, b: int, size: int)
    requires
        size > 0,
        a <= b <= a + size,
    ensures
        0 <= slot_at(a, size) < size,
        0 <= slot_at(b, size) < size,
        slot_at(b, size) == ring_add(slot_at(a, size), b - a, size) || (b - a == size && slot_at(
            b,
            size,
        ) == slot_at(a, size)),
        b - a < size ==> slot_at(b, size) == ring_add(slot_at(a, size), b - a, size),
        wrap_at(b, size) == (if slot_at(a, size) + (b - a) < size {
            wrap_at(a, size)
        } else {
            !wrap_at(a, size)
        }),
{
    reveal(slot_at);
    reveal(wrap_at);
    let q = a / size;
    let r = a % size;
    lemma_fundamental_div_mod(a, size);
    assert(0 <= r < size);
    let d = b - a;
    if r + d < size {
        assert(b == q * size + (r + d)) by (nonlinear_arith)
            requires
                a == size * q + r,
                b == a + d,
        ;
        lemma_fundamental_div_mod_converse(b, size, q, r + d);
    } else if r + d < 2 * size {
        assert(b == (q + 1) * size + (r + d - size)) by (nonlinear_arith)
            requires
                a == size * q + r,
                b == a + d,
        ;
        lemma_fundamental_div_mod_converse(b, size, q + 1, r + d - size);
    } else {
        assert(false);
    }
}

/// A running count in the lap before `next` falls on a slot that is none of
/// the `n` slots from that of `next` on, where the count is less than a
/// lap before the end of those.
pub proof fn lemma_outside_span(t: int, next: int, n: int, size: int)
    requires
        size > 0,
        0 <= n <= size,
        next + n - size <= t < next,
    ensures
        0 <= slot_at(t, size) < size,
        ring_off(slot_at(t, size), slot_at(next, size), size) >= n,
{
    lemma_near(t, next, size);
}

/// A running count among the `n` from `next` on falls on the slot that lies
/// as many slots after that of `next`.
pub proof fn lemma_inside_span(t: int, next: int, n: int, size: int)
    requires
        size > 0,
        0 <= n <= size,
        next <= t < next + n,
    ensures
        0 <= slot_at(t, size) < size,
        slot_at(t, size) == ring_add(slot_at(next, size), t - next, size),
        ring_off(slot_at(t, size), slot_at(next, size), size) == t - next,
{
    lemma_near(next, t, size);
}

/// One step on from slot `pos` with wrap counter `wrap`: the next slot, or
/// slot 0 with the wrap counter toggled where the ring ends.
pub(crate) fn step(pos: u16, wrap: bool, size: u16, Ghost(count): Ghost<int>) -> (r: (u16, bool))
    requires
        size > 0,
        pos == slot_at(count, size as int),
        wrap == wrap_at(count, size as int),
    ensures
        r.0 == slot_at(count + 1, size as int),
        r.1 == wrap_at(count + 1, size as int),
{
    proof {
        lemma_near(count, count + 1, size as int);
    }
    if pos + 1 == size {
        (0, !wrap)
    } else {
        (pos + 1, wrap)
    }
}

/// `steps` steps on from slot `pos` with wrap counter `wrap`, for no more
/// steps than the ring has slots.
pub(crate) fn advance(pos: u16, wrap: bool, steps: u16, size: u16, Ghost(count): Ghost<int>) -> (r: (
    u16,
    bool,
))
    requires
        size > 0,
        steps <= size,
        pos == slot_at(count, size as int),
        wrap == wrap_at(count, size as int),
    ensures
        r.0 == slot_at(count + steps, size as int),
        r.1 == wrap_at(count + steps, size as int),
{
    proof {
        lemma_near(count, count + steps, size as int);
    }
    let sum: u32 = pos as u32 + steps as u32;
    if sum < size as u32 {
        (sum as u16, wrap)
    } else {
        ((sum - size as u32) as u16, !wrap)
    }
}

/// The first running count falls on slot 0, in a lap whose wrap counter is
/// set.
pub proof fn lemma_origin(size: int)
    requires
        size > 0,
    ensures
        slot_at(0, size) == 0,
        wrap_at(0, size),
{
    reveal(slot_at);
    reveal(wrap_at);
}

/// A lap on, a running count falls on the same slot.
pub proof fn lemma_lap_slot(count: nat, size: nat)
    requires
        size > 0,
    ensures
        slot_of(count + size, size) == slot_of(count, size),
{
    reveal(slot_at);
    vstd::arithmetic::div_mod::lemma_mod_add_multiples_vanish(count as int, size as int);
}

/// Every running count falls on a slot of the ring.
pub broadcast proof fn lemma_slot_in_ring(count: int, size: int)
    requires
        size > 0,
    ensures
        0 <= #[trigger] slot_at(count, size) < size,
{
    reveal(slot_at);
}

/// In the first lap every running count falls on the slot of its own
/// number, and the count that ends the lap falls on slot 0 again.
pub proof fn lemma_first_lap(size: nat)
    requires
        size > 0,
    ensures
        forall|i: nat| i < size ==> #[trigger] slot_of(i, size) == i,
        slot_of(size, size) == 0,
{
    reveal(slot_at);
    assert forall|i: nat| i < size implies #[trigger] slot_of(i, size) == i by {
        vstd::arithmetic::div_mod::lemma_small_mod(i, size);
    }
    vstd::arithmetic::div_mod::lemma_mod_self_0(size as int);
}

} // verus!
