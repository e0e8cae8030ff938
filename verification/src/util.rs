//! Reading big-endian integers and zero-terminated strings from a byte
//! slice, and writing them to a growing byte buffer.
//!
//! The write side is strict: a word goes either to the end of the buffer or
//! over a whole, aligned word that is already there. A header can so be
//! written with placeholders first and patched once the body is laid out.

use vstd::prelude::*;
use vstd::string::StringSliceAdditionalSpecFns;

pub use crate::error::{SliceReadError, VecWriteError};

verus! {

/// The smallest multiple of `n` that is not below `x`.
pub open spec fn spec_align(x: int, n: int) -> int {
    if x % n == 0 {
        x
    } else {
        x + n - x % n
    }
}

/// `spec_align` yields a multiple of `n`, not below `x` and less than `n` above it.
pub proof fn lemma_align(x: int, n: int)
    requires
        0 <= x,
        0 < n,
    ensures
        spec_align(x, n) % n == 0,
        x <= spec_align(x, n) < x + n,
        x % n == 0 ==> spec_align(x, n) == x,
{
    if x % n != 0 {
        let r = x % n;
        assert((x + (n - r)) % n == 0) by (nonlinear_arith)
            requires
                r == x % n,
                0 < n,
                0 <= x,
        ;
    }
}

/// Rounds `x` up to a multiple of `n`.
pub fn align(x: usize, n: usize) -> (r: usize)
    requires
        n > 0,
        spec_align(x as int, n as int) <= usize::MAX,
    ensures
        r == spec_align(x as int, n as int),
{
    let rem = x % n;
    if rem == 0 {
        x
    } else {
        x + (n - rem)
    }
}

/// The number that the four bytes of `b` from `pos` on spell, most significant first.
pub open spec fn be_u32(b: Seq<u8>, pos: int) -> int {
    b[pos] as int * 0x100_0000 + b[pos + 1] as int * 0x1_0000 + b[pos + 2] as int * 0x100 + b[pos
        + 3] as int
}

/// The number that the eight bytes of `b` from `pos` on spell, most significant first.
pub open spec fn be_u64(b: Seq<u8>, pos: int) -> int {
    be_u32(b, pos) * 0x1_0000_0000 + be_u32(b, pos + 4)
}

/// The four bytes that spell `v`, most significant first.
#[verifier::opaque]
pub open spec fn u32_bytes(v: int) -> Seq<u8> {
    seq![
        (v / 0x100 / 0x100 / 0x100 % 0x100) as u8,
        (v / 0x100 / 0x100 % 0x100) as u8,
        (v / 0x100 % 0x100) as u8,
        (v % 0x100) as u8,
    ]
}

/// The eight bytes that spell `v`, most significant first.
pub open spec fn u64_bytes(v: int) -> Seq<u8> {
    u32_bytes(v / 0x1_0000_0000) + u32_bytes(v % 0x1_0000_0000)
}

/// `n` zero bytes.
pub open spec fn zeros(n: int) -> Seq<u8> {
    Seq::new(n as nat, |i: int| 0u8)
}

/// `b` followed by as many zero bytes as bring its length to a multiple of `n`.
pub open spec fn padded(b: Seq<u8>, n: int) -> Seq<u8> {
    b + zeros(spec_align(b.len() as int, n) - b.len())
}

/// The index of the first element of `s` at or after `from` that equals
/// `x`, or the length of `s` where there is none.
pub open spec fn first_of<T>(s: Seq<T>, x: T, from: int) -> int
    decreases s.len() - from,
{
    if from < 0 || from >= s.len() {
        s.len() as int
    } else if s[from] == x {
        from
    } else {
        first_of(s, x, from + 1)
    }
}

/// The offset of the first zero byte of `b` at or after `pos`, or the
/// length of `b` where there is none.
pub open spec fn zero_from(b: Seq<u8>, pos: int) -> int {
    first_of(b, 0u8, pos)
}

/// What `read_be_u32` returns.
pub open spec fn spec_read_be_u32(b: Seq<u8>, pos: int) -> Result<u32, SliceReadError> {
    if 0 <= pos && pos + 4 <= b.len() {
        Ok(be_u32(b, pos) as u32)
    } else {
        Err(SliceReadError::UnexpectedEndOfInput)
    }
}

/// What `read_be_u64` returns.
pub open spec fn spec_read_be_u64(b: Seq<u8>, pos: int) -> Result<u64, SliceReadError> {
    if 0 <= pos && pos + 8 <= b.len() {
        Ok(be_u64(b, pos) as u64)
    } else {
        Err(SliceReadError::UnexpectedEndOfInput)
    }
}

/// What `read_bstring0` returns: the bytes from `pos` up to the next zero byte.
pub open spec fn spec_read_bstring0(b: Seq<u8>, pos: int) -> Result<Seq<u8>, SliceReadError> {
    if 0 <= pos && zero_from(b, pos) < b.len() {
        Ok(b.subrange(pos, zero_from(b, pos)))
    } else {
        Err(SliceReadError::UnexpectedEndOfInput)
    }
}

/// What `subslice` returns.
pub open spec fn spec_subslice(b: Seq<u8>, start: int, end: int) -> Result<
    Seq<u8>,
    SliceReadError,
> {
    if 0 <= start <= end <= b.len() {
        Ok(b.subrange(start, end))
    } else {
        Err(SliceReadError::UnexpectedEndOfInput)
    }
}

/// Four bytes spell a number below 2^32, eight bytes one below 2^64.
pub proof fn lemma_be_range(b: Seq<u8>, pos: int)
    ensures
        0 <= be_u32(b, pos) <= u32::MAX,
        0 <= be_u64(b, pos) <= u64::MAX,
{
}

/// A number is spelled in four bytes.
pub proof fn lemma_u32_len(v: int)
    ensures
        u32_bytes(v).len() == 4,
{
    reveal(u32_bytes);
}

/// A number is spelled in four bytes, and reading them back gives the number.
pub proof fn lemma_u32_bytes(v: int)
    requires
        0 <= v <= u32::MAX,
    ensures
        u32_bytes(v).len() == 4,
        be_u32(u32_bytes(v), 0) == v,
{
    reveal(u32_bytes);
    let q1 = v / 0x100;
    let q2 = q1 / 0x100;
    let q3 = q2 / 0x100;
    assert(q3 % 0x100 == q3);
}

/// A number is spelled in eight bytes, and reading them back gives the number.
pub proof fn lemma_u64_bytes(v: int)
    requires
        0 <= v <= u64::MAX,
    ensures
        u64_bytes(v).len() == 8,
        be_u64(u64_bytes(v), 0) == v,
{
    let hi = v / 0x1_0000_0000;
    let lo = v % 0x1_0000_0000;
    lemma_u32_bytes(hi);
    lemma_u32_bytes(lo);
    let s = u64_bytes(v);
    assert(s.subrange(0, 4) =~= u32_bytes(hi));
    assert(s.subrange(4, 8) =~= u32_bytes(lo));
    lemma_be_u32_at(s, 0, hi);
    lemma_be_u32_at(s, 4, lo);
}

/// Where the four bytes of `b` from `pos` on are those that spell `v`, the word there is `v`.
pub proof fn lemma_be_u32_at(b: Seq<u8>, pos: int, v: int)
    requires
        0 <= v <= u32::MAX,
        0 <= pos,
        pos + 4 <= b.len(),
        b.subrange(pos, pos + 4) == u32_bytes(v),
    ensures
        be_u32(b, pos) == v,
{
    lemma_u32_bytes(v);
    let w = b.subrange(pos, pos + 4);
    assert(w[0] == b[pos] && w[1] == b[pos + 1] && w[2] == b[pos + 2] && w[3] == b[pos + 3]);
}

/// Where the eight bytes of `b` from `pos` on are those that spell `v`, the double word there is `v`.
pub proof fn lemma_be_u64_at(b: Seq<u8>, pos: int, v: int)
    requires
        0 <= v <= u64::MAX,
        0 <= pos,
        pos + 8 <= b.len(),
        b.subrange(pos, pos + 8) == u64_bytes(v),
    ensures
        be_u64(b, pos) == v,
{
    lemma_u64_bytes(v);
    let w = b.subrange(pos, pos + 8);
    assert(w[0] == b[pos] && w[1] == b[pos + 1] && w[2] == b[pos + 2] && w[3] == b[pos + 3]);
    assert(w[4] == b[pos + 4] && w[5] == b[pos + 5] && w[6] == b[pos + 6] && w[7] == b[pos + 7]);
}

/// A byte slice is no longer than a `usize` can say.
pub proof fn lemma_len_fits(buffer: &[u8])
    ensures
        buffer@.len() <= usize::MAX,
{
    assert(buffer@.len() == buffer.len());
}

/// `first_of` finds an element equal to `x`, and none lies before it.
pub proof fn lemma_first_of<T>(s: Seq<T>, x: T, from: int)
    requires
        0 <= from <= s.len(),
    ensures
        from <= first_of(s, x, from) <= s.len(),
        first_of(s, x, from) < s.len() ==> s[first_of(s, x, from)] == x,
        forall|i: int| from <= i < first_of(s, x, from) ==> s[i] != x,
    decreases s.len() - from,
{
    if from < s.len() && s[from] != x {
        lemma_first_of(s, x, from + 1);
    }
}

/// Where `x` stands at `at` and nowhere from `from` up to it, `first_of` finds it there.
pub proof fn lemma_first_of_is<T>(s: Seq<T>, x: T, from: int, at: int)
    requires
        0 <= from <= at <= s.len(),
        at < s.len() ==> s[at] == x,
        forall|i: int| from <= i < at ==> s[i] != x,
    ensures
        first_of(s, x, from) == at,
    decreases at - from,
{
    if from < at {
        lemma_first_of_is(s, x, from + 1, at);
    }
}

/// Reads the 32-bit big-endian integer at `pos`.
pub fn read_be_u32(buffer: &[u8], pos: usize) -> (r: Result<u32, SliceReadError>)
    ensures
        r == spec_read_be_u32(buffer@, pos as int),
{
    let len = buffer.len();
    if len < 4 || pos > len - 4 {
        return Err(SliceReadError::UnexpectedEndOfInput);
    }
    let b0 = buffer[pos] as u32;
    let b1 = buffer[pos + 1] as u32;
    let b2 = buffer[pos + 2] as u32;
    let b3 = buffer[pos + 3] as u32;
    Ok(b0 * 0x100_0000 + b1 * 0x1_0000 + b2 * 0x100 + b3)
}

/// Reads the 64-bit big-endian integer at `pos`.
pub fn read_be_u64(buffer: &[u8], pos: usize) -> (r: Result<u64, SliceReadError>)
    ensures
        r == spec_read_be_u64(buffer@, pos as int),
{
    let len = buffer.len();
    if len < 8 || pos > len - 8 {
        return Err(SliceReadError::UnexpectedEndOfInput);
    }
    let hi = match read_be_u32(buffer, pos) {
        Ok(v) => v,
        Err(e) => {
            return Err(e);
        },
    };
    let lo = match read_be_u32(buffer, pos + 4) {
        Ok(v) => v,
        Err(e) => {
            return Err(e);
        },
    };
    proof {
        lemma_be_range(buffer@, pos as int);
        lemma_be_range(buffer@, pos + 4);
    }
    Ok(hi as u64 * 0x1_0000_0000 + lo as u64)
}

/// Borrows the bytes from `pos` up to, and without, the next zero byte.
pub fn read_bstring0(buffer: &[u8], pos: usize) -> (r: Result<&[u8], SliceReadError>)
    ensures
        match r {
            Ok(s) => spec_read_bstring0(buffer@, pos as int) == Ok::<Seq<u8>, SliceReadError>(s@),
            Err(e) => spec_read_bstring0(buffer@, pos as int) == Err::<Seq<u8>, SliceReadError>(e),
        },
{
    let len = buffer.len();
    if pos >= len {
        return Err(SliceReadError::UnexpectedEndOfInput);
    }
    let mut end = pos;
    while end < len && buffer[end] != 0
        invariant
            pos <= end <= len,
            len == buffer@.len(),
            first_of(buffer@, 0u8, pos as int) == first_of(buffer@, 0u8, end as int),
        decreases len - end,
    {
        end += 1;
    }
    if end < len {
        Ok(&buffer[pos..end])
    } else {
        Err(SliceReadError::UnexpectedEndOfInput)
    }
}

/// Borrows the bytes from `start` up to, and without, `end`.
pub fn subslice(buffer: &[u8], start: usize, end: usize) -> (r: Result<&[u8], SliceReadError>)
    ensures
        match r {
            Ok(s) => spec_subslice(buffer@, start as int, end as int) == Ok::<
                Seq<u8>,
                SliceReadError,
            >(s@),
            Err(e) => spec_subslice(buffer@, start as int, end as int) == Err::<
                Seq<u8>,
                SliceReadError,
            >(e),
        },
{
    if start <= end && end <= buffer.len() {
        Ok(&buffer[start..end])
    } else {
        Err(SliceReadError::UnexpectedEndOfInput)
    }
}

/// `b` with the bytes from `pos` on replaced by `w`.
pub open spec fn patched(b: Seq<u8>, pos: int, w: Seq<u8>) -> Seq<u8> {
    b.subrange(0, pos) + w + b.subrange(pos + w.len(), b.len() as int)
}

/// What `write_be_u32` makes of the buffer `b`, or the error it returns.
pub open spec fn spec_write_be_u32(b: Seq<u8>, pos: int, v: u32) -> Result<
    Seq<u8>,
    VecWriteError,
> {
    if pos % 4 != 0 {
        Err(VecWriteError::UnalignedWrite)
    } else if pos == b.len() {
        Ok(b + u32_bytes(v as int))
    } else if pos + 4 <= b.len() {
        Ok(patched(b, pos, u32_bytes(v as int)))
    } else {
        Err(VecWriteError::NonContiguousWrite)
    }
}

/// What `write_be_u64` makes of the buffer `b`, or the error it returns.
pub open spec fn spec_write_be_u64(b: Seq<u8>, pos: int, v: u64) -> Result<
    Seq<u8>,
    VecWriteError,
> {
    if pos % 8 != 0 {
        Err(VecWriteError::UnalignedWrite)
    } else if pos == b.len() {
        Ok(b + u64_bytes(v as int))
    } else if pos + 8 <= b.len() {
        Ok(patched(b, pos, u64_bytes(v as int)))
    } else {
        Err(VecWriteError::NonContiguousWrite)
    }
}

/// Writes `v` big-endian at `pos`: at the end of the buffer, or over a
/// whole word inside it. `pos` must be a multiple of four. On an error the
/// buffer is left as it was.
pub fn write_be_u32(buffer: &mut Vec<u8>, pos: usize, v: u32) -> (r: Result<(), VecWriteError>)
    ensures
        match spec_write_be_u32(old(buffer)@, pos as int, v) {
            Ok(b) => r is Ok && final(buffer)@ == b,
            Err(e) => r == Err::<(), VecWriteError>(e) && final(buffer)@ == old(buffer)@,
        },
{
    if pos % 4 != 0 {
        return Err(VecWriteError::UnalignedWrite);
    }
    let q1 = v / 0x100;
    let q2 = q1 / 0x100;
    let q3 = q2 / 0x100;
    let b0 = q3 as u8;
    let b1 = (q2 % 0x100) as u8;
    let b2 = (q1 % 0x100) as u8;
    let b3 = (v % 0x100) as u8;
    let len = buffer.len();
    proof {
        reveal(u32_bytes);
        assert(u32_bytes(v as int) =~= seq![b0, b1, b2, b3]);
    }
    if pos == len {
        buffer.push(b0);
        buffer.push(b1);
        buffer.push(b2);
        buffer.push(b3);
        assert(buffer@ =~= old(buffer)@ + seq![b0, b1, b2, b3]);
        Ok(())
    } else if pos < len && len - pos >= 4 {
        buffer[pos] = b0;
        buffer[pos + 1] = b1;
        buffer[pos + 2] = b2;
        buffer[pos + 3] = b3;
        assert(buffer@ =~= patched(old(buffer)@, pos as int, seq![b0, b1, b2, b3]));
        Ok(())
    } else {
        Err(VecWriteError::NonContiguousWrite)
    }
}

/// Writes `v` big-endian at `pos`: at the end of the buffer, or over two
/// whole words inside it. `pos` must be a multiple of eight. On an error
/// the buffer is left as it was.
pub fn write_be_u64(buffer: &mut Vec<u8>, pos: usize, v: u64) -> (r: Result<(), VecWriteError>)
    ensures
        match spec_write_be_u64(old(buffer)@, pos as int, v) {
            Ok(b) => r is Ok && final(buffer)@ == b,
            Err(e) => r == Err::<(), VecWriteError>(e) && final(buffer)@ == old(buffer)@,
        },
{
    if pos % 8 != 0 {
        return Err(VecWriteError::UnalignedWrite);
    }
    let hi = (v / 0x1_0000_0000) as u32;
    let lo = (v % 0x1_0000_0000) as u32;
    let len = buffer.len();
    if pos == len {
        proof {
            lemma_u32_bytes(hi as int);
            lemma_u32_bytes(lo as int);
        }
        let _ = write_be_u32(buffer, pos, hi);
        let mid = buffer.len();
        let _ = write_be_u32(buffer, mid, lo);
        assert(buffer@ =~= old(buffer)@ + u64_bytes(v as int));
        Ok(())
    } else if pos < len && len - pos >= 8 {
        proof {
            lemma_u32_bytes(hi as int);
            lemma_u32_bytes(lo as int);
        }
        let _ = write_be_u32(buffer, pos, hi);
        let _ = write_be_u32(buffer, pos + 4, lo);
        assert(buffer@ =~= patched(old(buffer)@, pos as int, u64_bytes(v as int)));
        Ok(())
    } else {
        Err(VecWriteError::NonContiguousWrite)
    }
}

/// Appends the bytes of `s` and a zero byte.
pub fn write_bstring0(buffer: &mut Vec<u8>, s: &str) -> (r: Result<(), VecWriteError>)
    ensures
        r is Ok,
        final(buffer)@ == old(buffer)@ + s.spec_bytes() + seq![0u8],
{
    extend_from_slice(buffer, s.as_bytes());
    buffer.push(0);
    Ok(())
}

/// Appends zero bytes until the length is a multiple of `n`.
pub fn pad(buffer: &mut Vec<u8>, n: usize) -> (r: Result<(), VecWriteError>)
    requires
        n > 0,
    ensures
        r is Ok,
        final(buffer)@ == padded(old(buffer)@, n as int),
{
    proof {
        lemma_align(buffer@.len() as int, n as int);
    }
    while buffer.len() % n != 0
        invariant
            n > 0,
            old(buffer)@.len() <= buffer@.len() <= spec_align(old(buffer)@.len() as int, n as int),
            spec_align(old(buffer)@.len() as int, n as int) % (n as int) == 0,
            buffer@ == old(buffer)@ + zeros(buffer@.len() - old(buffer)@.len()),
        decreases spec_align(old(buffer)@.len() as int, n as int) - buffer@.len(),
    {
        buffer.push(0);
    }
    proof {
        let start = old(buffer)@.len() as int;
        let target = spec_align(start, n as int);
        let cur = buffer@.len() as int;
        assert(cur == target) by (nonlinear_arith)
            requires
                n > 0,
                cur % (n as int) == 0,
                target % (n as int) == 0,
                target - (n as int) < start <= cur <= target,
        ;
    }
    Ok(())
}

/// Appends `bytes` as they are.
pub fn extend_from_slice(buffer: &mut Vec<u8>, bytes: &[u8])
    ensures
        final(buffer)@ == old(buffer)@ + bytes@,
{
    buffer.extend_from_slice(bytes);
    assert(buffer@ =~= old(buffer)@ + bytes@);
}

} // verus!
