use vstd::prelude::*;

use crate::buffer::ComplexBits;

verus! {

/// Why a byte sequence is not a spilled buffer record.
#[derive(Clone, Copy, Debug, PartialEq, Eq, Structural)]
pub enum SpillError {
    /// Fewer than the eight bytes of the element count.
    MissingHeader,
    /// Fewer element bytes than the count declares.
    Truncated,
}

/// Little-endian bytes of a `u32`.
pub open spec fn le_u32(x: u32) -> Seq<u8> {
    seq![
        (x & 0xff) as u8,
        ((x >> 8u32) & 0xff) as u8,
        ((x >> 16u32) & 0xff) as u8,
        ((x >> 24u32) & 0xff) as u8,
    ]
}

/// Little-endian bytes of a `u64`.
pub open spec fn le_u64(x: u64) -> Seq<u8> {
    seq![
        (x & 0xff) as u8,
        ((x >> 8u64) & 0xff) as u8,
        ((x >> 16u64) & 0xff) as u8,
        ((x >> 24u64) & 0xff) as u8,
        ((x >> 32u64) & 0xff) as u8,
        ((x >> 40u64) & 0xff) as u8,
        ((x >> 48u64) & 0xff) as u8,
        ((x >> 56u64) & 0xff) as u8,
    ]
}

/// The `u32` whose little-endian bytes are `b0..b3`.
pub open spec fn u32_of_le(b0: u8, b1: u8, b2: u8, b3: u8) -> u32 {
    (b0 as u32) | ((b1 as u32) << 8u32) | ((b2 as u32) << 16u32) | ((b3 as u32) << 24u32)
}

/// The `u64` whose little-endian bytes are `b0..b7`.
pub open spec fn u64_of_le(b0: u8, b1: u8, b2: u8, b3: u8, b4: u8, b5: u8, b6: u8, b7: u8) -> u64 {
    (b0 as u64) | ((b1 as u64) << 8u64) | ((b2 as u64) << 16u64) | ((b3 as u64) << 24u64) | ((
    b4 as u64) << 32u64) | ((b5 as u64) << 40u64) | ((b6 as u64) << 48u64) | ((b7 as u64)
        << 56u64)
}

/// The little-endian `u32` stored at `b[at..at + 4]`.
pub open spec fn u32_at(b: Seq<u8>, at: int) -> u32 {
    u32_of_le(b[at], b[at + 1], b[at + 2], b[at + 3])
}

/// The little-endian `u64` stored at `b[at..at + 8]`.
pub open spec fn u64_at(b: Seq<u8>, at: int) -> u64 {
    u64_of_le(b[at], b[at + 1], b[at + 2], b[at + 3], b[at + 4], b[at + 5], b[at + 6], b[at + 7])
}

/// The complex value stored at `b[at..at + 8]`: real part, then imaginary.
pub open spec fn cell_at(b: Seq<u8>, at: int) -> ComplexBits {
    ComplexBits { re: u32_at(b, at), im: u32_at(b, at + 4) }
}

/// Bytes of one complex value: real part, then imaginary, each little-endian.
pub open spec fn cell_bytes(c: ComplexBits) -> Seq<u8> {
    le_u32(c.re) + le_u32(c.im)
}

/// Bytes of the values of `s`, one after the other.
pub open spec fn cells_bytes(s: Seq<ComplexBits>) -> Seq<u8>
    decreases s.len(),
{
    if s.len() == 0 {
        Seq::empty()
    } else {
        cells_bytes(s.drop_last()) + cell_bytes(s.last())
    }
}

/// The spilled record of buffer `s`: its length as a little-endian `u64`,
/// then the bytes of its values.
pub open spec fn record_bytes(s: Seq<ComplexBits>) -> Seq<u8> {
    le_u64(s.len() as u64) + cells_bytes(s)
}

/// What reading the record `b` back gives: the count, then exactly that many
/// values. Bytes after the declared values are not read.
pub open spec fn parse_record(b: Seq<u8>) -> Result<Seq<ComplexBits>, SpillError> {
    if b.len() < 8 {
        Err(SpillError::MissingHeader)
    } else {
        let count = u64_at(b, 0) as int;
        if b.len() - 8 < 8 * count {
            Err(SpillError::Truncated)
        } else {
            Ok(Seq::new(count as nat, |i: int| cell_at(b, 8 + 8 * i)))
        }
    }
}

/// The model of a decoding result.
pub open spec fn result_view(r: Result<Vec<ComplexBits>, SpillError>) -> Result<
    Seq<ComplexBits>,
    SpillError,
> {
    match r {
        Ok(v) => Ok(v@),
        Err(e) => Err(e),
    }
}

fn push_u32_le(out: &mut Vec<u8>, x: u32)
    ensures
        final(out)@ == old(out)@ + le_u32(x),
{
    out.push((x & 0xff) as u8);
    out.push(((x >> 8u32) & 0xff) as u8);
    out.push(((x >> 16u32) & 0xff) as u8);
    out.push(((x >> 24u32) & 0xff) as u8);
    assert(final(out)@ =~= old(out)@ + le_u32(x));
}

fn push_u64_le(out: &mut Vec<u8>, x: u64)
    ensures
        final(out)@ == old(out)@ + le_u64(x),
{
    out.push((x & 0xff) as u8);
    out.push(((x >> 8u64) & 0xff) as u8);
    out.push(((x >> 16u64) & 0xff) as u8);
    out.push(((x >> 24u64) & 0xff) as u8);
    out.push(((x >> 32u64) & 0xff) as u8);
    out.push(((x >> 40u64) & 0xff) as u8);
    out.push(((x >> 48u64) & 0xff) as u8);
    out.push(((x >> 56u64) & 0xff) as u8);
    assert(final(out)@ =~= old(out)@ + le_u64(x));
}

fn read_u32_le(b: &[u8], at: usize) -> (r: u32)
    requires
        at + 4 <= b.len(),
    ensures
        r == u32_at(b@, at as int),
{
    (b[at] as u32) | ((b[at + 1] as u32) << 8u32) | ((b[at + 2] as u32) << 16u32) | ((b[at
        + 3] as u32) << 24u32)
}

fn read_u64_le(b: &[u8]) -> (r: u64)
    requires
        8 <= b.len(),
    ensures
        r == u64_at(b@, 0),
{
    (b[0] as u64) | ((b[1] as u64) << 8u64) | ((b[2] as u64) << 16u64) | ((b[3] as u64)
        << 24u64) | ((b[4] as u64) << 32u64) | ((b[5] as u64) << 40u64) | ((b[6] as u64)
        << 48u64) | ((b[7] as u64) << 56u64)
}

/// Encodes `buffer` as a spilled record: an eight-byte little-endian element
/// count, then each value's real and imaginary bit patterns, little-endian.
pub fn freeze_bytes(buffer: &Vec<ComplexBits>) -> (r: Vec<u8>)
    ensures
        r@ == record_bytes(buffer@),
{
    let ghost s = buffer@;
    let mut out: Vec<u8> = Vec::new();
    push_u64_le(&mut out, buffer.len() as u64);
    let mut i: usize = 0;
    while i < buffer.len()
        invariant
            s == buffer@,
            0 <= i <= s.len(),
            out@ == le_u64(s.len() as u64) + cells_bytes(s.take(i as int)),
        decreases s.len() - i,
    {
        let c = buffer[i];
        push_u32_le(&mut out, c.re);
        push_u32_le(&mut out, c.im);
        proof {
            assert(s.take(i + 1).drop_last() =~= s.take(i as int));
            assert(cells_bytes(s.take(i + 1)) == cells_bytes(s.take(i as int)) + cell_bytes(c));
            assert(out@ =~= le_u64(s.len() as u64) + cells_bytes(s.take(i + 1)));
        }
        i = i + 1;
    }
    assert(s.take(s.len() as int) =~= s);
    out
}

/// Bytes of the element count that heads a record of `n` values.
pub fn encode_count(n: u64) -> (r: Vec<u8>)
    ensures
        r@ == le_u64(n),
{
    let mut out: Vec<u8> = Vec::new();
    push_u64_le(&mut out, n);
    assert(out@ =~= le_u64(n));
    out
}

/// Bytes of one value of a record.
pub fn encode_cell(c: ComplexBits) -> (r: Vec<u8>)
    ensures
        r@ == cell_bytes(c),
{
    let mut out: Vec<u8> = Vec::new();
    push_u32_le(&mut out, c.re);
    push_u32_le(&mut out, c.im);
    assert(out@ =~= cell_bytes(c));
    out
}

/// The element count read from the eight header bytes of a record.
pub fn decode_count(header: &[u8]) -> (r: u64)
    requires
        header@.len() == 8,
    ensures
        r == u64_at(header@, 0),
{
    read_u64_le(header)
}

/// One value read from its eight bytes in a record.
pub fn decode_cell(b: &[u8]) -> (r: ComplexBits)
    requires
        b@.len() == 8,
    ensures
        r == cell_at(b@, 0),
{
    let re = read_u32_le(b, 0);
    let im = read_u32_le(b, 4);
    ComplexBits { re, im }
}

/// Decodes a spilled record: the count, then exactly that many values. Fails
/// when the bytes stop before the declared values do; bytes after them are
/// left unread.
pub fn unfreeze_bytes(bytes: &Vec<u8>) -> (r: Result<Vec<ComplexBits>, SpillError>)
    ensures
        result_view(r) == parse_record(bytes@),
{
    let ghost b = bytes@;
    let slice = bytes.as_slice();
    if bytes.len() < 8 {
        return Err(SpillError::MissingHeader);
    }
    let count = read_u64_le(slice);
    let avail: usize = bytes.len() - 8;
    let whole: usize = avail / 8;
    if count > whole as u64 {
        assert(avail < 8 * count) by (nonlinear_arith)
            requires
                count > whole,
                whole == avail / 8,
        ;
        return Err(SpillError::Truncated);
    }
    assert(avail >= 8 * count) by (nonlinear_arith)
        requires
            count <= whole,
            whole == avail / 8,
    ;
    let n: usize = count as usize;
    let mut out: Vec<ComplexBits> = Vec::with_capacity(n);
    let mut i: usize = 0;
    while i < n
        invariant
            b == bytes@,
            b == slice@,
            b.len() >= 8 + 8 * n,
            bytes.len() >= 8 + 8 * n,
            n == count,
            0 <= i <= n,
            out@ =~= Seq::new(i as nat, |k: int| cell_at(b, 8 + 8 * k)),
        decreases n - i,
    {
        assert(8 + 8 * i + 8 <= b.len()) by (nonlinear_arith)
            requires
                i < n,
                b.len() >= 8 + 8 * n,
        ;
        assert(8 + 8 * i + 8 <= bytes.len());
        let re = read_u32_le(slice, 8 + 8 * i);
        let im = read_u32_le(slice, 8 + 8 * i + 4);
        out.push(ComplexBits { re, im });
        i = i + 1;
    }
    Ok(out)
}

proof fn lemma_u32_le_inverse(x: u32)
    ensures
        u32_of_le(
            (x & 0xff) as u8,
            ((x >> 8u32) & 0xff) as u8,
            ((x >> 16u32) & 0xff) as u8,
            ((x >> 24u32) & 0xff) as u8,
        ) == x,
{
    assert((((x & 0xff) as u8) as u32) | ((((x >> 8u32) & 0xff) as u8) as u32) << 8u32 | ((((x
        >> 16u32) & 0xff) as u8) as u32) << 16u32 | ((((x >> 24u32) & 0xff) as u8) as u32)
        << 24u32 == x) by (bit_vector);
}

proof fn lemma_u64_le_inverse(x: u64)
    ensures
        u64_of_le(
            (x & 0xff) as u8,
            ((x >> 8u64) & 0xff) as u8,
            ((x >> 16u64) & 0xff) as u8,
            ((x >> 24u64) & 0xff) as u8,
            ((x >> 32u64) & 0xff) as u8,
            ((x >> 40u64) & 0xff) as u8,
            ((x >> 48u64) & 0xff) as u8,
            ((x >> 56u64) & 0xff) as u8,
        ) == x,
{
    assert((((x & 0xff) as u8) as u64) | ((((x >> 8u64) & 0xff) as u8) as u64) << 8u64 | ((((x
        >> 16u64) & 0xff) as u8) as u64) << 16u64 | ((((x >> 24u64) & 0xff) as u8) as u64)
        << 24u64 | ((((x >> 32u64) & 0xff) as u8) as u64) << 32u64 | ((((x >> 40u64) & 0xff)
        as u8) as u64) << 40u64 | ((((x >> 48u64) & 0xff) as u8) as u64) << 48u64 | ((((x
        >> 56u64) & 0xff) as u8) as u64) << 56u64 == x) by (bit_vector);
}

proof fn lemma_cells_bytes_len(s: Seq<ComplexBits>)
    ensures
        cells_bytes(s).len() == 8 * s.len(),
    decreases s.len(),
{
    if s.len() > 0 {
        lemma_cells_bytes_len(s.drop_last());
    }
}

proof fn lemma_cells_bytes_index(s: Seq<ComplexBits>, i: int, k: int)
    requires
        0 <= i < s.len(),
        0 <= k < 8,
    ensures
        cells_bytes(s)[8 * i + k] == cell_bytes(s[i])[k],
    decreases s.len(),
{
    let p = s.drop_last();
    lemma_cells_bytes_len(p);
    if i < s.len() - 1 {
        lemma_cells_bytes_index(p, i, k);
    }
}

/// Reading one value back from its own bytes gives the value, bit for bit.
pub proof fn lemma_cell_round_trip(c: ComplexBits)
    ensures
        cell_at(cell_bytes(c), 0) == c,
{
    lemma_u32_le_inverse(c.re);
    lemma_u32_le_inverse(c.im);
}

/// Reading back a buffer's spilled record gives the buffer itself: the same
/// length and the same bit patterns, for every buffer whose length fits the
/// eight-byte count.
pub proof fn lemma_round_trip(s: Seq<ComplexBits>)
    requires
        s.len() <= u64::MAX,
    ensures
        parse_record(record_bytes(s)) == Ok::<Seq<ComplexBits>, SpillError>(s),
{
    let b = record_bytes(s);
    let h = le_u64(s.len() as u64);
    lemma_cells_bytes_len(s);
    lemma_u64_le_inverse(s.len() as u64);
    assert(u64_at(b, 0) == s.len());
    assert forall|i: int| 0 <= i < s.len() implies cell_at(b, 8 + 8 * i) == s[i] by {
        assert forall|k: int| 0 <= k < 8 implies b[8 + 8 * i + k] == #[trigger] cell_bytes(s[i])[k] by {
            lemma_cells_bytes_index(s, i, k);
        }
        assert(b[8 + 8 * i] == cell_bytes(s[i])[0]);
        assert(b[8 + 8 * i + 1] == cell_bytes(s[i])[1]);
        assert(b[8 + 8 * i + 2] == cell_bytes(s[i])[2]);
        assert(b[8 + 8 * i + 3] == cell_bytes(s[i])[3]);
        assert(b[8 + 8 * i + 4] == cell_bytes(s[i])[4]);
        assert(b[8 + 8 * i + 4 + 1] == cell_bytes(s[i])[5]);
        assert(b[8 + 8 * i + 4 + 2] == cell_bytes(s[i])[6]);
        assert(b[8 + 8 * i + 4 + 3] == cell_bytes(s[i])[7]);
        lemma_u32_le_inverse(s[i].re);
        lemma_u32_le_inverse(s[i].im);
    }
    let parsed = Seq::new(s.len(), |i: int| cell_at(b, 8 + 8 * i));
    assert(parsed =~= s);
}

} // verus!
