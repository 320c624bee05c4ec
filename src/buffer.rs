use vstd::prelude::*;

use crate::sizes::{correlation_len, find_target_size, is_next_pow2};

verus! {

/// One complex value of a buffer, held as the IEEE-754 binary32 bit patterns
/// of its real and imaginary parts. Keeping the bits (rather than the floats)
/// lets the buffer be stored and restored bit for bit.
#[derive(Clone, Copy, Debug, PartialEq, Eq, Structural)]
pub struct ComplexBits {
    pub re: u32,
    pub im: u32,
}

/// Zero-pads a signal of `my_size` samples, to be correlated with one of
/// `other_size` samples, to the transform length: the samples in order, then
/// `zero` up to the least power of two that holds `my_size + other_size - 1`
/// entries.
pub fn prepare<T: Copy>(samples: Vec<T>, my_size: usize, other_size: usize, zero: T) -> (r: Vec<T>)
    requires
        samples.len() == my_size,
        other_size >= 1,
        my_size + other_size - 1 <= usize::MAX / 2 + 1,
    ensures
        is_next_pow2(correlation_len(my_size as int, other_size as int), r.len() as int),
        r.len() >= my_size,
        r@ == samples@ + Seq::new((r.len() - my_size) as nat, |i: int| zero),
{
    let target = find_target_size(my_size, other_size);
    let ghost s = samples@;
    let mut buffer = samples;
    while buffer.len() < target
        invariant
            my_size <= buffer.len() <= target,
            buffer@ =~= s + Seq::new((buffer.len() - my_size) as nat, |i: int| zero),
        decreases target - buffer.len(),
    {
        buffer.push(zero);
    }
    buffer
}

/// Reverses the first `m` entries of `buffer` in place (the needle's own
/// samples, not its padding), which turns the product of spectra into a
/// sliding cross-correlation.
pub fn reverse_prefix<T: Copy>(buffer: &mut Vec<T>, m: usize)
    requires
        m <= old(buffer).len(),
    ensures
        final(buffer).len() == old(buffer).len(),
        forall|i: int| 0 <= i < m ==> #[trigger] final(buffer)@[i] == old(buffer)@[m - 1 - i],
        forall|i: int| m <= i < old(buffer).len() ==> #[trigger] final(buffer)@[i] == old(buffer)@[i],
{
    let ghost s = buffer@;
    let mut i: usize = 0;
    while i < m / 2
        invariant
            m <= s.len(),
            buffer.len() == s.len(),
            0 <= i <= m / 2,
            forall|j: int| 0 <= j < i ==> #[trigger] buffer@[j] == s[m - 1 - j],
            forall|j: int| m - i <= j < m ==> #[trigger] buffer@[j] == s[m - 1 - j],
            forall|j: int| i <= j < m - i ==> #[trigger] buffer@[j] == s[j],
            forall|j: int| m <= j < s.len() ==> #[trigger] buffer@[j] == s[j],
        decreases m / 2 - i,
    {
        let a = buffer[i];
        let b = buffer[m - 1 - i];
        buffer.set(i, b);
        buffer.set(m - 1 - i, a);
        i = i + 1;
    }
}

/// Cuts the inverse-transformed product down to the linear correlation of a
/// haystack of `h` samples with a needle of `m` samples: its first
/// `h + m - 1` entries, whatever the padded length was.
pub fn truncate_correlation<T>(buffer: &mut Vec<T>, h: usize, m: usize)
    requires
        h + m >= 1,
        h + m - 1 <= old(buffer).len(),
    ensures
        final(buffer).len() == correlation_len(h as int, m as int),
        final(buffer)@ == old(buffer)@.subrange(0, correlation_len(h as int, m as int)),
{
    let len: usize = if h >= 1 {
        (h - 1) + m
    } else {
        m - 1
    };
    buffer.truncate(len);
}

} // verus!
