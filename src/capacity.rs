//! The sizing policy of the backing region: it starts at
//! [`LEAST_CAPACITY`], doubles when an insertion finds no room, and halves
//! when a deletion leaves less than half of it in use, never going below
//! the floor. Under that policy the region is always the smallest doubling
//! of the floor that holds the bytes in use.

use crate::arena::{HEADER_SIZE, NODE_SIZE};
use crate::rbtree::LEAST_CAPACITY;
use vstd::prelude::*;

verus! {

/// The floor doubled `j` times.
pub open spec fn doubled(j: nat) -> nat
    decreases j,
{
    if j == 0 {
        LEAST_CAPACITY as nat
    } else {
        2 * doubled((j - 1) as nat)
    }
}

/// The first exponent from `j` on whose doubling holds `used` bytes.
pub open spec fn least_exp_from(j: nat, used: int) -> nat
    decreases (if used > doubled(j) { used - doubled(j) } else { 0 }),
{
    if doubled(j) >= used {
        j
    } else {
        proof {
            lemma_doubled_grows(j);
        }
        least_exp_from(j + 1, used)
    }
}

/// The smallest doubling of the floor that holds `used` bytes.
pub open spec fn least_capacity(used: int) -> nat {
    doubled(least_exp_from(0, used))
}

/// Bytes in use for `k` node records.
pub open spec fn used_for(k: nat) -> int {
    HEADER_SIZE + NODE_SIZE * k
}

/// Each doubling is twice the one before, and none is below the floor.
pub proof fn lemma_doubled_grows(j: nat)
    ensures
        doubled(j + 1) == 2 * doubled(j),
        doubled(j) >= LEAST_CAPACITY,
    decreases j,
{
    if j > 0 {
        lemma_doubled_grows((j - 1) as nat);
    }
}

proof fn lemma_doubled_mono(i: nat, j: nat)
    requires
        i <= j,
    ensures
        doubled(i) <= doubled(j),
    decreases j - i,
{
    if i < j {
        lemma_doubled_mono(i, (j - 1) as nat);
        lemma_doubled_grows((j - 1) as nat);
    }
}

proof fn lemma_doubled_mod(j: nat)
    ensures
        doubled(j) % 64 == 0,
    decreases j,
{
    if j > 0 {
        lemma_doubled_mod((j - 1) as nat);
    }
}

proof fn lemma_least_exp(i: nat, j: nat, used: int)
    requires
        i <= j,
        doubled(j) >= used,
        j == 0 || doubled((j - 1) as nat) < used,
    ensures
        least_exp_from(i, used) == j,
    decreases j - i,
{
    lemma_doubled_grows(i);
    if i < j {
        lemma_doubled_mono(i, (j - 1) as nat);
        lemma_least_exp(i + 1, j, used);
    }
}

/// After an insertion, the policy's region is again the smallest doubling
/// that holds the bytes in use: a region of `doubled(j)` bytes that was the
/// smallest for `k` records stays when one more record fits, and doubles
/// once when it does not.
pub proof fn lemma_capacity_after_add(j: nat, k: nat)
    requires
        doubled(j) == least_capacity(used_for(k)),
    ensures
        ({
            let cap = doubled(j);
            let next = if used_for(k) + NODE_SIZE > cap { 2 * cap } else { cap };
            next == least_capacity(used_for(k + 1))
        }),
{
    let used = used_for(k);
    lemma_doubled_grows(j);
    let e = least_exp_from(0, used);
    lemma_least_exp_spec(0, used);
    lemma_exp_unique(j, e);
    if used + NODE_SIZE > doubled(j) {
        lemma_least_exp(0, j + 1, used_for(k + 1));
    } else {
        if j > 0 {
            lemma_doubled_grows((j - 1) as nat);
        }
        lemma_least_exp(0, j, used_for(k + 1));
    }
}

/// After a deletion, the policy's region is again the smallest doubling
/// that holds the bytes in use: a region of `doubled(j)` bytes that was the
/// smallest for `k + 1` records halves when less than half of it is in use
/// and the half is not below the floor, and stays otherwise.
pub proof fn lemma_capacity_after_del(j: nat, k: nat)
    requires
        doubled(j) == least_capacity(used_for(k + 1)),
    ensures
        ({
            let cap = doubled(j);
            let next = if used_for(k) < cap / 2 && cap / 2 >= LEAST_CAPACITY { cap / 2 } else { cap };
            next == least_capacity(used_for(k))
        }),
{
    let used = used_for(k + 1);
    lemma_doubled_grows(j);
    let e = least_exp_from(0, used);
    lemma_least_exp_spec(0, used);
    lemma_exp_unique(j, e);
    lemma_doubled_mod(j);
    if j == 0 {
        lemma_least_exp(0, 0, used_for(k));
    } else {
        let h = (j - 1) as nat;
        lemma_doubled_grows(h);
        lemma_doubled_mod(h);
        if used_for(k) < doubled(j) / 2 {
            assert(doubled(j) / 2 == doubled(h));
            if h > 0 {
                lemma_doubled_grows((h - 1) as nat);
            }
            lemma_least_exp(0, h, used_for(k));
        } else {
            assert(used_for(k) % 64 == 24);
            assert(used_for(k) != doubled(h));
            lemma_least_exp(0, j, used_for(k));
        }
    }
}

/// The exponent `least_exp_from(i, used)` names a doubling that holds
/// `used`, and the one below it does not (or it is the first from `i`).
proof fn lemma_least_exp_spec(i: nat, used: int)
    ensures
        doubled(least_exp_from(i, used)) >= used,
        least_exp_from(i, used) >= i,
        least_exp_from(i, used) == i || doubled((least_exp_from(i, used) - 1) as nat) < used,
    decreases (if used > doubled(i) { used - doubled(i) } else { 0 }),
{
    lemma_doubled_grows(i);
    if doubled(i) < used {
        lemma_least_exp_spec(i + 1, used);
    }
}

/// Distinct exponents give distinct doublings.
proof fn lemma_exp_unique(a: nat, b: nat)
    requires
        doubled(a) == doubled(b),
    ensures
        a == b,
    decreases a + b,
{
    if a > 0 && b > 0 {
        lemma_doubled_grows((a - 1) as nat);
        lemma_doubled_grows((b - 1) as nat);
        lemma_exp_unique((a - 1) as nat, (b - 1) as nat);
    } else if a > 0 {
        lemma_doubled_grows((a - 1) as nat);
        lemma_doubled_grows(0);
        lemma_doubled_mono(1, a);
    } else if b > 0 {
        lemma_doubled_grows((b - 1) as nat);
        lemma_doubled_grows(0);
        lemma_doubled_mono(1, b);
    }
}

} // verus!
