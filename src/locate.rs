use vstd::prelude::*;

use crate::buffer::ComplexBits;

verus! {

/// The bit pattern `b` encodes a binary32 NaN (all exponent bits set, a
/// non-zero fraction).
pub open spec fn is_nan_bits(b: u32) -> bool {
    (b & 0x7f80_0000u32) == 0x7f80_0000u32 && (b & 0x007f_ffffu32) != 0
}

/// An unsigned key that orders binary32 bit patterns as the numbers they
/// encode are ordered: negative values (sign bit set) have their bits
/// inverted, the others get the sign bit set. Negative zero takes the key of
/// positive zero, so the two compare equal. NaN patterns get some key; the
/// locator never compares them.
pub open spec fn order_key(b: u32) -> u32 {
    if b == 0x8000_0000u32 {
        0x8000_0000u32
    } else if (b & 0x8000_0000u32) != 0 {
        !b
    } else {
        b | 0x8000_0000u32
    }
}

/// Key of the real part of entry `i`.
pub open spec fn key_at(c: Seq<ComplexBits>, i: int) -> u32 {
    order_key(c[i].re)
}

/// Some real part of `c` is a NaN.
pub open spec fn has_nan(c: Seq<ComplexBits>) -> bool {
    exists|i: int| 0 <= i < c.len() && #[trigger] is_nan_bits(c[i].re)
}

/// All real parts of `c` are equal numbers (zero standard deviation).
pub open spec fn is_flat(c: Seq<ComplexBits>) -> bool {
    forall|i: int, j: int|
        0 <= i < c.len() && 0 <= j < c.len() ==> #[trigger] key_at(c, i) == #[trigger] key_at(c, j)
}

/// Index of the first least real part among the first `n` entries.
pub open spec fn first_min(c: Seq<ComplexBits>, n: int) -> int
    decreases n,
{
    if n <= 1 {
        0
    } else {
        let k = first_min(c, n - 1);
        if key_at(c, n - 1) < key_at(c, k) {
            n - 1
        } else {
            k
        }
    }
}

/// Index of the first greatest real part among the first `n` entries.
pub open spec fn first_max(c: Seq<ComplexBits>, n: int) -> int
    decreases n,
{
    if n <= 1 {
        0
    } else {
        let k = first_max(c, n - 1);
        if key_at(c, n - 1) > key_at(c, k) {
            n - 1
        } else {
            k
        }
    }
}

/// Index of the last greatest real part among the entries `lo..hi`.
pub open spec fn last_max_in(c: Seq<ComplexBits>, lo: int, hi: int) -> int
    decreases hi - lo,
{
    if hi <= lo + 1 {
        lo
    } else {
        let k = last_max_in(c, lo, hi - 1);
        if key_at(c, hi - 1) >= key_at(c, k) {
            hi - 1
        } else {
            k
        }
    }
}

/// End (exclusive) of the search window that starts at `lo`: one tenth of a
/// second of samples, clamped to the `n` entries of the sequence.
pub open spec fn window_end(lo: int, sample_rate: int, n: int) -> int {
    if lo + sample_rate / 10 <= n {
        lo + sample_rate / 10
    } else {
        n
    }
}

/// Where a located needle starts, and which entry holds the greatest real
/// part of the correlation (the one whose z-score gives the confidence).
#[derive(Clone, Copy, Debug, PartialEq, Eq, Structural)]
pub struct Estimate {
    pub offset: usize,
    pub max_index: usize,
}

/// The locator's decision for correlation `c` of a needle of `m` samples with
/// a haystack of `h` samples at `sample_rate`. `None` is the zero-confidence
/// outcome: nothing to scan, a NaN, a flat sequence, an empty window, or a
/// candidate offset outside `0..h`.
pub open spec fn locate_spec(c: Seq<ComplexBits>, m: int, h: int, sample_rate: int) -> Option<
    Estimate,
> {
    if c.len() == 0 || has_nan(c) || is_flat(c) || sample_rate / 10 == 0 {
        None
    } else {
        let lo = first_min(c, c.len() as int);
        let peak = last_max_in(c, lo, window_end(lo, sample_rate, c.len() as int));
        let candidate = peak - (m - 1);
        if 0 <= candidate < h {
            Some(
                Estimate {
                    offset: candidate as usize,
                    max_index: first_max(c, c.len() as int) as usize,
                },
            )
        } else {
            None
        }
    }
}

/// Executable `order_key`.
pub fn order_key_of(b: u32) -> (r: u32)
    ensures
        r == order_key(b),
{
    if b == 0x8000_0000u32 {
        0x8000_0000u32
    } else if (b & 0x8000_0000u32) != 0 {
        !b
    } else {
        b | 0x8000_0000u32
    }
}

/// Executable `is_nan_bits`.
pub fn is_nan_of(b: u32) -> (r: bool)
    ensures
        r == is_nan_bits(b),
{
    (b & 0x7f80_0000u32) == 0x7f80_0000u32 && (b & 0x007f_ffffu32) != 0
}

/// `first_min(c, n)` is the first entry among the first `n` whose real part
/// is least: no entry is less, and every earlier entry is greater.
pub proof fn lemma_first_min_is_first_least(c: Seq<ComplexBits>, n: int)
    requires
        1 <= n <= c.len(),
    ensures
        0 <= first_min(c, n) < n,
        forall|j: int| 0 <= j < n ==> key_at(c, first_min(c, n)) <= #[trigger] key_at(c, j),
        forall|j: int| 0 <= j < first_min(c, n) ==> key_at(c, first_min(c, n)) < #[trigger] key_at(c, j),
    decreases n,
{
    if n > 1 {
        lemma_first_min_is_first_least(c, n - 1);
    }
}

proof fn lemma_first_max_bounds(c: Seq<ComplexBits>, n: int)
    requires
        1 <= n <= c.len(),
    ensures
        0 <= first_max(c, n) < n,
        forall|j: int| 0 <= j < n ==> #[trigger] key_at(c, j) <= key_at(c, first_max(c, n)),
    decreases n,
{
    if n > 1 {
        lemma_first_max_bounds(c, n - 1);
    }
}

/// `last_max_in(c, lo, hi)` is the last entry of `lo..hi` whose real part is
/// greatest: no entry of the window is greater, and every later one is less.
pub proof fn lemma_last_max_is_last_greatest(c: Seq<ComplexBits>, lo: int, hi: int)
    requires
        0 <= lo < hi <= c.len(),
    ensures
        lo <= last_max_in(c, lo, hi) < hi,
        forall|j: int| lo <= j < hi ==> #[trigger] key_at(c, j) <= key_at(c, last_max_in(c, lo, hi)),
        forall|j: int| last_max_in(c, lo, hi) < j < hi ==> #[trigger] key_at(c, j) < key_at(c, last_max_in(c, lo, hi)),
    decreases hi - lo,
{
    if hi > lo + 1 {
        lemma_last_max_is_last_greatest(c, lo, hi - 1);
    }
}

/// Whatever the correlation, a located start is a sample index inside the
/// haystack at which the whole needle's alignment falls inside the
/// correlation, and the score entry is an entry of the correlation; every
/// other case is the zero-confidence result, never an index out of range.
pub proof fn lemma_estimate_in_range(c: Seq<ComplexBits>, m: int, h: int, sample_rate: int)
    requires
        m >= 0,
    ensures
        locate_spec(c, m, h, sample_rate) matches Some(e) ==> {
            &&& 0 <= e.offset < h
            &&& e.offset + m - 1 < c.len()
            &&& e.max_index < c.len()
        },
{
    if c.len() > 0 {
        let n = c.len() as int;
        lemma_first_min_is_first_least(c, n);
        lemma_first_max_bounds(c, n);
        let lo = first_min(c, n);
        if lo < window_end(lo, sample_rate, n) {
            lemma_last_max_is_last_greatest(c, lo, window_end(lo, sample_rate, n));
        }
    }
}

/// Picks where the needle starts from the correlation of haystack and
/// needle. The start is found as the first global minimum of the real parts
/// followed, within one tenth of a second, by the last local maximum; the
/// needle length is then taken off. `None` stands for the zero-confidence
/// result.
pub fn locate_audio_start(
    correlation: &Vec<ComplexBits>,
    needle_sample_count: usize,
    haystack_sample_count: usize,
    sample_rate: usize,
) -> (r: Option<Estimate>)
    ensures
        r == locate_spec(
            correlation@,
            needle_sample_count as int,
            haystack_sample_count as int,
            sample_rate as int,
        ),
{
    let ghost c = correlation@;
    let n = correlation.len();
    if n == 0 {
        return None;
    }
    let mut i: usize = 0;
    while i < n
        invariant
            n == c.len(),
            c == correlation@,
            0 <= i <= n,
            forall|j: int| 0 <= j < i ==> !#[trigger] is_nan_bits(c[j].re),
        decreases n - i,
    {
        if is_nan_of(correlation[i].re) {
            assert(is_nan_bits(c[i as int].re));
            return None;
        }
        i = i + 1;
    }
    assert(!has_nan(c));
    let mut lo: usize = 0;
    let mut hi_idx: usize = 0;
    let mut lo_key = order_key_of(correlation[0].re);
    let mut hi_key = lo_key;
    let mut i: usize = 1;
    while i < n
        invariant
            n == c.len(),
            c == correlation@,
            1 <= i <= n,
            lo == first_min(c, i as int),
            hi_idx == first_max(c, i as int),
            lo_key == key_at(c, lo as int),
            hi_key == key_at(c, hi_idx as int),
        decreases n - i,
    {
        proof {
            lemma_first_min_is_first_least(c, i as int);
            lemma_first_max_bounds(c, i as int);
        }
        let k = order_key_of(correlation[i].re);
        if k < lo_key {
            lo = i;
            lo_key = k;
        }
        if k > hi_key {
            hi_idx = i;
            hi_key = k;
        }
        i = i + 1;
    }
    proof {
        lemma_first_min_is_first_least(c, n as int);
        lemma_first_max_bounds(c, n as int);
    }
    if lo_key == hi_key {
        assert(is_flat(c)) by {
            assert forall|a: int, b: int| 0 <= a < c.len() && 0 <= b < c.len() implies #[trigger] key_at(c, a)
                == #[trigger] key_at(c, b) by {
                assert(key_at(c, lo as int) <= key_at(c, a) <= key_at(c, hi_idx as int));
                assert(key_at(c, lo as int) <= key_at(c, b) <= key_at(c, hi_idx as int));
            }
        }
        return None;
    }
    assert(!is_flat(c)) by {
        assert(key_at(c, lo as int) != key_at(c, hi_idx as int));
    }
    let width = sample_rate / 10;
    if width == 0 {
        return None;
    }
    let hi: usize = if width <= n - lo {
        lo + width
    } else {
        n
    };
    assert(hi == window_end(lo as int, sample_rate as int, n as int));
    let mut peak: usize = lo;
    let mut peak_key = lo_key;
    let mut i: usize = lo + 1;
    while i < hi
        invariant
            n == c.len(),
            c == correlation@,
            lo < hi <= n,
            lo + 1 <= i <= hi,
            peak == last_max_in(c, lo as int, i as int),
            lo <= peak < i,
            peak_key == key_at(c, peak as int),
        decreases hi - i,
    {
        let k = order_key_of(correlation[i].re);
        if k >= peak_key {
            peak = i;
            peak_key = k;
        }
        i = i + 1;
    }
    if peak + 1 >= needle_sample_count && peak + 1 - needle_sample_count < haystack_sample_count {
        Some(Estimate { offset: peak + 1 - needle_sample_count, max_index: hi_idx })
    } else {
        None
    }
}

} // verus!
