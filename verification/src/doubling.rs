//! Powers of two and the shape of a doubling table.

use vstd::prelude::*;

verus! {

/// Two to the power `k`.
pub open spec fn pow2(k: nat) -> nat
    decreases k,
{
    if k == 0 {
        1
    } else {
        2 * pow2((k - 1) as nat)
    }
}

/// How many levels a position keeps when `d` positions follow it: one for every `k` with
/// `pow2(k) <= d`.
pub open spec fn height(d: nat) -> nat
    decreases d,
{
    if d == 0 {
        0
    } else {
        1 + height(d / 2)
    }
}

pub proof fn lemma_pow2_positive(k: nat)
    ensures
        pow2(k) >= 1,
    decreases k,
{
    if k > 0 {
        lemma_pow2_positive((k - 1) as nat);
    }
}

/// A power of two exceeds its exponent.
pub proof fn lemma_pow2_exceeds(k: nat)
    ensures
        pow2(k) > k,
    decreases k,
{
    if k > 0 {
        lemma_pow2_exceeds((k - 1) as nat);
    }
}

pub proof fn lemma_pow2_monotonic(j: nat, k: nat)
    requires
        j <= k,
    ensures
        pow2(j) <= pow2(k),
    decreases k,
{
    if j < k {
        lemma_pow2_monotonic(j, (k - 1) as nat);
    }
}

/// `height(d)` is the one number `h` with `pow2(h) > d` and, unless it is zero,
/// `pow2(h - 1) <= d`.
pub proof fn lemma_height_brackets(d: nat)
    ensures
        d < pow2(height(d)),
        d > 0 ==> pow2((height(d) - 1) as nat) <= d,
    decreases d,
{
    if d > 0 {
        lemma_height_brackets(d / 2);
    }
}

/// A level `k` is kept exactly when `pow2(k)` positions follow.
pub proof fn lemma_level_kept(d: nat, k: nat)
    ensures
        k < height(d) <==> pow2(k) <= d,
{
    lemma_height_brackets(d);
    if k < height(d) {
        lemma_pow2_monotonic(k, (height(d) - 1) as nat);
    } else {
        lemma_pow2_monotonic(height(d), k);
    }
}

/// Between one power of two and the next the height does not change.
pub proof fn lemma_height_between(d: nat, m: nat)
    requires
        pow2(m) <= d < pow2(m + 1),
    ensures
        height(d) == m + 1,
{
    lemma_level_kept(d, m);
    lemma_level_kept(d, m + 1);
}

} // verus!
