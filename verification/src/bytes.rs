//! Little-endian integers and byte cursors.
//!
//! A cursor is a `&[u8]` that is advanced past what has been read, as
//! `std::io::Read` does for byte slices.

use vstd::prelude::*;
use byteorder::{LittleEndian, ReadBytesExt};

verus! {

/// The value of two bytes read as a little-endian integer.
pub open spec fn le16(s: Seq<u8>) -> int {
    s[0] + 0x100 * s[1]
}

/// The value of four bytes read as a little-endian integer.
pub open spec fn le32(s: Seq<u8>) -> int {
    s[0] + 0x100 * s[1] + 0x1_0000 * s[2] + 0x100_0000 * s[3]
}

/// Four bytes read as a little-endian integer fit in a `u32`.
pub(crate) proof fn lemma_le32_range(s: Seq<u8>)
    ensures
        0 <= le32(s) < 0x1_0000_0000,
{
    assert(0 <= s[0] <= 0xff && 0 <= s[1] <= 0xff && 0 <= s[2] <= 0xff && 0 <= s[3] <= 0xff);
}

/// The value of eight bytes read as a little-endian integer.
pub open spec fn le64(s: Seq<u8>) -> int {
    le32(s) + 0x1_0000_0000 * le32(s.skip(4))
}

/// `byteorder::ReadBytesExt::read_u8` on a byte cursor.
/// Claimed: it succeeds exactly when a byte remains, gives that byte and
/// advances the cursor past it. Of the cursor after a failure nothing is
/// claimed.
#[verifier::external_body]
pub(crate) fn read_u8(cursor: &mut &[u8]) -> (r: Option<u8>)
    ensures
        r is Some <==> old(cursor)@.len() >= 1,
        r matches Some(v) ==> {
            &&& v == old(cursor)@[0]
            &&& final(cursor)@ == old(cursor)@.skip(1)
        },
{
    cursor.read_u8().ok()
}

/// `byteorder::ReadBytesExt::read_u16::<LittleEndian>` on a byte cursor.
/// Claimed: it succeeds exactly when two bytes remain, gives their
/// little-endian value and advances the cursor past them. Of the cursor
/// after a failure nothing is claimed.
#[verifier::external_body]
pub(crate) fn read_u16_le(cursor: &mut &[u8]) -> (r: Option<u16>)
    ensures
        r is Some <==> old(cursor)@.len() >= 2,
        r matches Some(v) ==> {
            &&& v == le16(old(cursor)@)
            &&& final(cursor)@ == old(cursor)@.skip(2)
        },
{
    cursor.read_u16::<LittleEndian>().ok()
}

/// `byteorder::ReadBytesExt::read_u32::<LittleEndian>` on a byte cursor.
/// Claimed: it succeeds exactly when four bytes remain, gives their
/// little-endian value and advances the cursor past them. Of the cursor
/// after a failure nothing is claimed.
#[verifier::external_body]
pub(crate) fn read_u32_le(cursor: &mut &[u8]) -> (r: Option<u32>)
    ensures
        r is Some <==> old(cursor)@.len() >= 4,
        r matches Some(v) ==> {
            &&& v == le32(old(cursor)@)
            &&& final(cursor)@ == old(cursor)@.skip(4)
        },
{
    cursor.read_u32::<LittleEndian>().ok()
}

/// `byteorder::ReadBytesExt::read_u64::<LittleEndian>` on a byte cursor.
/// Claimed: it succeeds exactly when eight bytes remain, gives their
/// little-endian value and advances the cursor past them. Of the cursor
/// after a failure nothing is claimed.
#[verifier::external_body]
pub(crate) fn read_u64_le(cursor: &mut &[u8]) -> (r: Option<u64>)
    ensures
        r is Some <==> old(cursor)@.len() >= 8,
        r matches Some(v) ==> {
            &&& v == le64(old(cursor)@)
            &&& final(cursor)@ == old(cursor)@.skip(8)
        },
{
    cursor.read_u64::<LittleEndian>().ok()
}

/// Skipping twice is skipping the sum.
pub(crate) proof fn lemma_skip_skip(s: Seq<u8>, a: int, b: int)
    requires
        0 <= a,
        0 <= b,
        a + b <= s.len(),
    ensures
        s.skip(a).skip(b) == s.skip(a + b),
{
    assert(s.skip(a).skip(b) =~= s.skip(a + b));
}

/// Reads `N` bytes into `buf` and advances the cursor past them, or gives
/// `false`, with the cursor unchanged, when fewer remain.
pub(crate) fn read_exact_array<const N: usize>(cursor: &mut &[u8], buf: &mut [u8; N]) -> (ok: bool)
    ensures
        ok <==> old(cursor)@.len() >= N,
        ok ==> final(buf)@ == old(cursor)@.take(N as int) && final(cursor)@ == old(cursor)@.skip(
            N as int,
        ),
        !ok ==> final(cursor)@ == old(cursor)@,
{
    if cursor.len() < N {
        return false;
    }
    let mut i: usize = 0;
    while i < N
        invariant
            i <= N,
            N <= cursor@.len(),
            cursor@ == old(cursor)@,
            buf@.len() == N,
            forall|k: int| 0 <= k < i ==> buf@[k] == cursor@[k],
        decreases N - i,
    {
        buf[i] = cursor[i];
        i += 1;
    }
    assert(buf@ =~= old(cursor)@.take(N as int));
    *cursor = vstd::slice::slice_subrange(*cursor, N, cursor.len());
    assert(cursor@ =~= old(cursor)@.skip(N as int));
    true
}

/// Reads `n` bytes into a new vector and advances the cursor past them, or
/// gives `None`, with the cursor unchanged, when fewer remain.
pub(crate) fn read_bytes(cursor: &mut &[u8], n: usize) -> (r: Option<Vec<u8>>)
    ensures
        r is Some <==> old(cursor)@.len() >= n,
        r matches Some(v) ==> v@ == old(cursor)@.take(n as int) && final(cursor)@ == old(
            cursor,
        )@.skip(n as int),
        r is None ==> final(cursor)@ == old(cursor)@,
{
    if cursor.len() < n {
        return None;
    }
    let v = vstd::slice::slice_to_vec(vstd::slice::slice_subrange(*cursor, 0, n));
    *cursor = vstd::slice::slice_subrange(*cursor, n, cursor.len());
    assert(v@ =~= old(cursor)@.take(n as int));
    assert(cursor@ =~= old(cursor)@.skip(n as int));
    Some(v)
}

/// Advances the cursor past `n` bytes, as `std::io::BufRead::consume` does,
/// or gives `false`, with the cursor unchanged, when fewer remain.
pub(crate) fn skip_bytes(cursor: &mut &[u8], n: usize) -> (ok: bool)
    ensures
        ok <==> n <= old(cursor)@.len(),
        ok ==> final(cursor)@ == old(cursor)@.skip(n as int),
        !ok ==> final(cursor)@ == old(cursor)@,
{
    if n > cursor.len() {
        return false;
    }
    *cursor = vstd::slice::slice_subrange(*cursor, n, cursor.len());
    assert(cursor@ =~= old(cursor)@.skip(n as int));
    true
}

} // verus!
