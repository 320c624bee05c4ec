use vstd::prelude::*;

verus! {

/// `2^k`.
pub open spec fn pow2(k: nat) -> nat
    decreases k,
{
    if k == 0 {
        1
    } else {
        2 * pow2((k - 1) as nat)
    }
}

/// `n` is a power of two.
pub open spec fn is_pow2(n: int) -> bool {
    exists|k: nat| pow2(k) == n
}

/// `r` is the least power of two that is at least `n`.
pub open spec fn is_next_pow2(n: int, r: int) -> bool {
    &&& is_pow2(r)
    &&& n <= r
    &&& (r == 1 || r / 2 < n)
}

/// Number of entries of the linear (unaliased) correlation of a haystack of
/// `h` samples with a needle of `m` samples.
pub open spec fn correlation_len(h: int, m: int) -> int {
    h + m - 1
}

proof fn lemma_pow2_monotonic(a: nat, b: nat)
    requires
        a <= b,
    ensures
        1 <= pow2(a) <= pow2(b),
    decreases b,
{
    if b > 0 {
        if a < b {
            lemma_pow2_monotonic(a, (b - 1) as nat);
        } else {
            lemma_pow2_monotonic((a - 1) as nat, (b - 1) as nat);
        }
    }
}

/// There is one least power of two at or above `n`: any two lengths that
/// both meet `is_next_pow2` are equal, so the padded length is exactly
/// `next_power_of_two(n)`.
pub proof fn lemma_next_pow2_unique(n: int, r1: int, r2: int)
    requires
        is_next_pow2(n, r1),
        is_next_pow2(n, r2),
    ensures
        r1 == r2,
{
    let a = choose|k: nat| pow2(k) == r1;
    let b = choose|k: nat| pow2(k) == r2;
    if a < b {
        lemma_pow2_monotonic(a, (b - 1) as nat);
        lemma_pow2_monotonic(0, (b - 1) as nat);
        assert(r2 / 2 == pow2((b - 1) as nat));
    } else if b < a {
        lemma_pow2_monotonic(b, (a - 1) as nat);
        lemma_pow2_monotonic(0, (a - 1) as nat);
        assert(r1 / 2 == pow2((a - 1) as nat));
    }
}

/// Length of the zero-padded transform buffer for two signals of `my_size`
/// and `other_size` samples: the smallest power of two that holds their
/// whole linear correlation.
pub fn find_target_size(my_size: usize, other_size: usize) -> (r: usize)
    requires
        my_size + other_size >= 1,
        my_size + other_size - 1 <= usize::MAX / 2 + 1,
    ensures
        is_next_pow2(correlation_len(my_size as int, other_size as int), r as int),
{
    let n: usize = my_size + other_size - 1;
    let mut p: usize = 1;
    let ghost mut k: nat = 0;
    while p < n
        invariant
            n <= usize::MAX / 2 + 1,
            p >= 1,
            p == pow2(k),
            p == 1 || p / 2 < n,
        decreases usize::MAX - p,
    {
        p = p * 2;
        proof {
            k = k + 1;
        }
    }
    assert(pow2(k) == p);
    p
}

} // verus!
