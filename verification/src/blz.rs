//! In-place decompression of BLZ ("bottom LZ") data, the backward LZ77
//! variant that Nintendo DS ARM9 binaries and overlays are packed with.
//!
//! The compressed region ends with an 8-byte footer. Its first word holds
//! the footer length in the top byte and the length of the compressed data
//! (counted back from the end of the footer) in the low 24 bits; its second
//! word is how far past the end of the footer the decompressed data ends.
//! The data is read backwards: a flag byte, then eight tokens whose kind its
//! bits give, most significant bit first. A clear bit is a literal byte; a
//! set bit is a back-reference of two bytes `a`, `b`: `(a >> 4) + 3` bytes
//! are copied from `((a & 0xf) << 8 | b) + 2` bytes above the write position.
//! Output is also written backwards, from the end of the decompressed data
//! down.

use vstd::prelude::*;
use crate::bytes::le32;
use std::ops::Range;

verus! {

/// The ways in which BLZ data can be malformed.
#[derive(Debug, Clone, Copy, PartialEq, Eq)]
pub enum BlzError {
    /// The footer offset is not inside the buffer.
    OffsetOutOfBounds,
    /// Fewer than 8 bytes follow the footer offset.
    FooterTooShort,
    /// The 8 footer bytes would start before the buffer.
    FooterBeforeStart,
    /// The footer length is larger than the buffer.
    FooterTooLong,
    /// The footer length reaches before the start of the buffer.
    FooterPastStart,
    /// The compressed length is larger than the data before the footer.
    CompressedTooLong,
    /// The end of the decompressed data is not inside the buffer.
    DestinationOutOfBounds,
    /// A token reads below the start of the buffer.
    SourceUnderflow,
    /// A token writes below the start of the buffer.
    DestinationUnderflow,
    /// A back-reference reads past the end of the buffer.
    ReferenceOutOfBounds,
}

/// A decompression state: the buffer, the read position (one past the next
/// compressed byte) and the write position (one past the next output byte).
pub type BlzState = (Seq<u8>, int, int);

/// How a step of decompression ends: in a state, or failing with the buffer
/// as it was left.
pub type BlzStep = Result<BlzState, (Seq<u8>, BlzError)>;

/// The footer word that holds the footer length and compressed length.
pub open spec fn footer_flags(b: Seq<u8>, offset: int) -> int {
    le32(b.subrange(offset - 8, offset - 4))
}

/// The footer word that holds the end of the decompressed data, relative to
/// the end of the footer.
pub open spec fn footer_dest_offset(b: Seq<u8>, offset: int) -> int {
    le32(b.subrange(offset - 4, offset))
}

/// Whether token `i` (0 to 7) of a group with flag byte `flags` is a
/// back-reference.
pub open spec fn is_reference(flags: u8, i: int) -> bool {
    flags & (0x80u8 >> (i as u8)) != 0
}

/// Whether an error is one that decompression itself meets, past the
/// footer: a read or write outside the buffer.
pub open spec fn stops_decompression(e: BlzError) -> bool {
    ||| e == BlzError::SourceUnderflow
    ||| e == BlzError::DestinationUnderflow
    ||| e == BlzError::ReferenceOutOfBounds
}

/// Copies `count` bytes, one at a time and downwards, each from `disp` bytes
/// above the write position; gives the buffer and the write position after.
pub open spec fn copy_back(b: Seq<u8>, dst: int, disp: int, count: nat) -> Result<
    (Seq<u8>, int),
    (Seq<u8>, BlzError),
>
    decreases count,
{
    if count == 0 {
        Ok((b, dst))
    } else if dst + disp >= b.len() {
        Err((b, BlzError::ReferenceOutOfBounds))
    } else if dst == 0 {
        Err((b, BlzError::DestinationUnderflow))
    } else {
        copy_back(b.update(dst - 1, b[dst + disp]), dst - 1, disp, (count - 1) as nat)
    }
}

/// Decodes one token: a literal byte, or a back-reference.
pub open spec fn token(b: Seq<u8>, src: int, dst: int, reference: bool) -> BlzStep {
    if src == 0 {
        Err((b, BlzError::SourceUnderflow))
    } else if !reference {
        if dst == 0 {
            Err((b, BlzError::DestinationUnderflow))
        } else {
            Ok((b.update(dst - 1, b[src - 1]), src - 1, dst - 1))
        }
    } else if src == 1 {
        Err((b, BlzError::SourceUnderflow))
    } else {
        let a = b[src - 1];
        let lo = b[src - 2];
        let disp = (a % 16) * 256 + lo + 2;
        let count = a / 16 + 3;
        match copy_back(b, dst, disp, count as nat) {
            Ok((b1, d1)) => Ok((b1, src - 2, d1)),
            Err(e) => Err(e),
        }
    }
}

/// Decodes tokens `i` to 7 of a group, stopping early once the read position
/// has reached `start`.
pub open spec fn tokens(b: Seq<u8>, src: int, dst: int, start: int, flags: u8, i: int) -> BlzStep
    decreases 8 - i,
{
    if i >= 8 {
        Ok((b, src, dst))
    } else {
        match token(b, src, dst, is_reference(flags, i)) {
            Ok((b1, s1, d1)) => if s1 <= start {
                Ok((b1, s1, d1))
            } else {
                tokens(b1, s1, d1, start, flags, i + 1)
            },
            Err(e) => Err(e),
        }
    }
}

pub proof fn lemma_copy_back_bounds(b: Seq<u8>, dst: int, disp: int, count: nat)
    requires
        0 <= dst <= b.len(),
        disp >= 2,
    ensures
        copy_back(b, dst, disp, count) matches Ok((b1, d1)) ==> {
            &&& 0 <= d1 <= dst
            &&& b1.len() == b.len()
            &&& forall|k: int| 0 <= k < d1 || dst <= k < b.len() ==> b1[k] == b[k]
        },
        copy_back(b, dst, disp, count) matches Err((b1, e)) ==> b1.len() == b.len() && stops_decompression(e),
    decreases count,
{
    if count > 0 && dst + disp < b.len() && dst != 0 {
        let b2 = b.update(dst - 1, b[dst + disp]);
        lemma_copy_back_bounds(b2, dst - 1, disp, (count - 1) as nat);
    }
}

pub proof fn lemma_token_bounds(b: Seq<u8>, src: int, dst: int, reference: bool)
    requires
        0 <= src,
        0 <= dst <= b.len(),
    ensures
        token(b, src, dst, reference) matches Ok((b1, s1, d1)) ==> {
            &&& 0 <= s1 < src
            &&& 0 <= d1 <= dst
            &&& b1.len() == b.len()
            &&& forall|k: int| 0 <= k < d1 || dst <= k < b.len() ==> b1[k] == b[k]
        },
        token(b, src, dst, reference) matches Err((b1, e)) ==> b1.len() == b.len() && stops_decompression(e),
{
    if src >= 2 && reference {
        let a = b[src - 1];
        let disp = (a % 16) * 256 + b[src - 2] + 2;
        lemma_copy_back_bounds(b, dst, disp, (a / 16 + 3) as nat);
    }
}

pub proof fn lemma_tokens_bounds(b: Seq<u8>, src: int, dst: int, start: int, flags: u8, i: int)
    requires
        0 <= src,
        0 <= dst <= b.len(),
    ensures
        tokens(b, src, dst, start, flags, i) matches Ok((b1, s1, d1)) ==> {
            &&& 0 <= s1 <= src
            &&& 0 <= d1 <= dst
            &&& b1.len() == b.len()
            &&& forall|k: int| 0 <= k < d1 || dst <= k < b.len() ==> b1[k] == b[k]
        },
        tokens(b, src, dst, start, flags, i) matches Err((b1, e)) ==> b1.len() == b.len() && stops_decompression(e),
    decreases 8 - i,
{
    if i < 8 {
        lemma_token_bounds(b, src, dst, is_reference(flags, i));
        if let Ok((b1, s1, d1)) = token(b, src, dst, is_reference(flags, i)) {
            if s1 > start {
                lemma_tokens_bounds(b1, s1, d1, start, flags, i + 1);
            }
        }
    }
}

/// The eight tokens of a group take their kinds from the flag byte's bits,
/// most significant first: token `i` is a back-reference exactly when bit
/// `7 - i` is set.
pub proof fn lemma_flag_bit_order(flags: u8, i: u8)
    requires
        i < 8,
    ensures
        is_reference(flags, i as int) == ((flags >> ((7 - i) as u8)) & 1u8 == 1u8),
{
    assert(((flags & (0x80u8 >> i)) != 0) == ((flags >> ((7 - i) as u8)) & 1u8 == 1u8)) by (bit_vector)
        requires
            i < 8,
    ;
}

/// A copy writes the `count` bytes just below the write position `dst`,
/// each equal to the byte `disp` above the write position it was written
/// at, and no other byte.
pub proof fn lemma_copy_back_copies(b: Seq<u8>, dst: int, disp: int, count: nat)
    requires
        0 <= dst <= b.len(),
        disp >= 0,
    ensures
        copy_back(b, dst, disp, count) matches Ok((b1, d1)) ==> {
            &&& d1 == dst - count
            &&& b1.len() == b.len()
            &&& forall|k: int| d1 <= k < dst ==> #[trigger] b1[k] == b1[k + 1 + disp]
            &&& forall|k: int| 0 <= k < b.len() && !(d1 <= k < dst) ==> #[trigger] b1[k] == b[k]
        },
    decreases count,
{
    if count > 0 && dst + disp < b.len() && dst != 0 {
        let b2 = b.update(dst - 1, b[dst + disp]);
        lemma_copy_back_copies(b2, dst - 1, disp, (count - 1) as nat);
        if let Ok((b1, d1)) = copy_back(b, dst, disp, count) {
            assert(b1[dst + disp] == b2[dst + disp]);
            assert(b1[dst - 1] == b2[dst - 1]);
            assert forall|k: int| d1 <= k < dst implies #[trigger] b1[k] == b1[k + 1 + disp] by {
                if k == dst - 1 {
                    assert(b1[k + 1 + disp] == b2[dst + disp]);
                }
            }
            assert forall|k: int| 0 <= k < b.len() && !(d1 <= k < dst) implies #[trigger] b1[k]
                == b[k] by {
                assert(b1[k] == b2[k]);
            }
        }
    }
}

/// A literal token moves the byte below the read position to just below
/// the write position, and changes no other byte.
pub proof fn lemma_token_literal(b: Seq<u8>, src: int, dst: int)
    requires
        1 <= src <= b.len(),
        0 <= dst <= b.len(),
    ensures
        token(b, src, dst, false) matches Ok((b1, s1, d1)) ==> {
            &&& s1 == src - 1
            &&& d1 == dst - 1
            &&& b1.len() == b.len()
            &&& b1[d1] == b[src - 1]
            &&& forall|k: int| 0 <= k < b.len() && k != d1 ==> #[trigger] b1[k] == b[k]
        },
{
}

/// A back-reference token of bytes `a` (read first) and `lo` copies
/// `(a >> 4) + 3` bytes, each from `((a & 0xf) << 8 | lo) + 2` bytes above
/// the write position it is written at, and changes no other byte.
pub proof fn lemma_token_reference(b: Seq<u8>, src: int, dst: int)
    requires
        2 <= src <= b.len(),
        0 <= dst <= b.len(),
    ensures
        token(b, src, dst, true) matches Ok((b1, s1, d1)) ==> {
            let a = b[src - 1];
            let lo = b[src - 2];
            let disp = (((a & 0x0fu8) as int) * 256 + lo as int) + 2;
            &&& s1 == src - 2
            &&& d1 == dst - ((a >> 4u8) as int + 3)
            &&& b1.len() == b.len()
            &&& forall|k: int| d1 <= k < dst ==> #[trigger] b1[k] == b1[k + 1 + disp]
            &&& forall|k: int| 0 <= k < b.len() && !(d1 <= k < dst) ==> #[trigger] b1[k] == b[k]
        },
{
    let a = b[src - 1];
    assert(a & 0x0fu8 == a % 16 && a >> 4u8 == a / 16) by (bit_vector);
    let disp = (a % 16) * 256 + b[src - 2] + 2;
    lemma_copy_back_copies(b, dst, disp, (a / 16 + 3) as nat);
}

/// Decodes groups while the read position is above `start`.
pub open spec fn groups(b: Seq<u8>, src: int, dst: int, start: int) -> BlzStep
    decreases src,
{
    if src <= start || src <= 0 || dst < 0 || dst > b.len() {
        Ok((b, src, dst))
    } else {
        let flags = b[src - 1];
        match tokens(b, src - 1, dst, start, flags, 0) {
            Ok((b1, s1, d1)) => {
                proof {
                    lemma_tokens_bounds(b, src - 1, dst, start, flags, 0);
                }
                groups(b1, s1, d1, start)
            },
            Err(e) => Err(e),
        }
    }
}

pub proof fn lemma_groups_bounds(b: Seq<u8>, src: int, dst: int, start: int)
    requires
        0 <= dst <= b.len(),
    ensures
        groups(b, src, dst, start) matches Ok((b1, s1, d1)) ==> {
            &&& 0 <= d1 <= dst
            &&& b1.len() == b.len()
            &&& forall|k: int| 0 <= k < d1 || dst <= k < b.len() ==> b1[k] == b[k]
        },
        groups(b, src, dst, start) matches Err((b1, e)) ==> b1.len() == b.len() && stops_decompression(e),
    decreases src,
{
    if src > start && src > 0 {
        let flags = b[src - 1];
        lemma_tokens_bounds(b, src - 1, dst, start, flags, 0);
        if let Ok((b1, s1, d1)) = tokens(b, src - 1, dst, start, flags, 0) {
            lemma_groups_bounds(b1, s1, d1, start);
        }
    }
}

/// Whether the footer that ends at `offset` describes a region that
/// decompression can start on: the footer lies in the buffer with 8 bytes
/// after it, the footer and the compressed data lie before its end, and
/// the end of the decompressed data lies in the buffer.
pub open spec fn footer_check(b: Seq<u8>, offset: int) -> Result<(), BlzError> {
    if offset >= b.len() {
        Err(BlzError::OffsetOutOfBounds)
    } else if b.len() - offset < 8 {
        Err(BlzError::FooterTooShort)
    } else if offset < 8 {
        Err(BlzError::FooterBeforeStart)
    } else {
        let flags = footer_flags(b, offset);
        let footer_len = flags / 0x100_0000;
        let compressed_len = flags % 0x100_0000;
        let dest = offset + footer_dest_offset(b, offset);
        if footer_len > b.len() {
            Err(BlzError::FooterTooLong)
        } else if footer_len > offset {
            Err(BlzError::FooterPastStart)
        } else if compressed_len > offset - footer_len {
            Err(BlzError::CompressedTooLong)
        } else if dest >= b.len() {
            Err(BlzError::DestinationOutOfBounds)
        } else {
            Ok(())
        }
    }
}

/// The result of BLZ decompression of the region whose footer ends at
/// `offset`: the buffer afterwards and the range of the decompressed data, or
/// the error and the buffer as it was left.
pub open spec fn blz_extract(b: Seq<u8>, offset: int) -> Result<
    (Seq<u8>, int, int),
    (Seq<u8>, BlzError),
> {
    match footer_check(b, offset) {
        Err(e) => Err((b, e)),
        Ok(_) => {
            let flags = footer_flags(b, offset);
            let footer_len = flags / 0x100_0000;
            let compressed_len = flags % 0x100_0000;
            let dest = offset + footer_dest_offset(b, offset);
            match groups(b, offset - footer_len, dest, offset - compressed_len) {
                Ok((b1, _, d1)) => Ok((b1, d1, dest)),
                Err(e) => Err(e),
            }
        },
    }
}

/// Decompression changes no byte outside the range it returns, and that
/// range ends at the destination given by the footer, inside the buffer.
pub proof fn lemma_extract_frame(b: Seq<u8>, offset: int)
    ensures
        blz_extract(b, offset) matches Ok((b1, s, e)) ==> {
            &&& 0 <= s <= e < b.len()
            &&& e == offset + footer_dest_offset(b, offset)
            &&& b1.len() == b.len()
            &&& forall|k: int| 0 <= k < s || e <= k < b.len() ==> b1[k] == b[k]
        },
        blz_extract(b, offset) matches Err((b1, e)) ==> {
            &&& b1.len() == b.len()
            &&& footer_check(b, offset) is Ok ==> stops_decompression(e)
        },
{
    if offset < b.len() && b.len() - offset >= 8 && offset >= 8 {
        let flags = footer_flags(b, offset);
        let footer_len = flags / 0x100_0000;
        let compressed_len = flags % 0x100_0000;
        let dest = offset + footer_dest_offset(b, offset);
        if dest < b.len() {
            lemma_groups_bounds(b, offset - footer_len, dest, offset - compressed_len);
        }
    }
}

/// A region whose compressed length (the low 24 bits of the footer's first
/// word) is no more than its footer length (the top byte) holds nothing to
/// decompress: extraction succeeds, changes no byte and gives the empty
/// range at the destination.
pub proof fn lemma_extract_nothing(b: Seq<u8>, offset: int)
    requires
        footer_check(b, offset) is Ok,
        le32(b.subrange(offset - 8, offset - 4)) % 0x100_0000 <= le32(b.subrange(offset - 8, offset - 4))
            / 0x100_0000,
    ensures
        blz_extract(b, offset) == Ok::<(Seq<u8>, int, int), (Seq<u8>, BlzError)>(
            (b, offset + le32(b.subrange(offset - 4, offset)), offset + le32(b.subrange(offset - 4, offset))),
        ),
{
}

/// The little-endian value of the four bytes of `b` at `i`.
fn le32_at(b: &[u8], i: usize) -> (v: u32)
    requires
        i + 4 <= b@.len(),
    ensures
        v == le32(b@.subrange(i as int, i + 4)),
{
    b[i] as u32 + 0x100 * (b[i + 1] as u32) + 0x1_0000 * (b[i + 2] as u32) + 0x100_0000 * (
    b[i + 3] as u32)
}

/// Copies `count` bytes downwards from `disp` bytes above the write
/// position `dst`; gives the write position after.
fn copy_back_in(buf: &mut [u8], dst: usize, disp: usize, count: u32) -> (r: Result<usize, BlzError>)
    requires
        dst < old(buf)@.len(),
    ensures
        match copy_back(old(buf)@, dst as int, disp as int, count as nat) {
            Ok((b1, d1)) => r matches Ok(rd) && rd == d1 && final(buf)@ == b1,
            Err((b1, e)) => r == Err::<usize, BlzError>(e) && final(buf)@ == b1,
        },
{
    let ghost target = copy_back(buf@, dst as int, disp as int, count as nat);
    let mut d = dst;
    let mut j: u32 = 0;
    while j < count
        invariant
            j <= count,
            d < buf@.len(),
            copy_back(buf@, d as int, disp as int, (count - j) as nat) == target,
            target == copy_back(old(buf)@, dst as int, disp as int, count as nat),
        decreases count - j,
    {
        if disp >= buf.len() - d {
            return Err(BlzError::ReferenceOutOfBounds);
        }
        if d == 0 {
            return Err(BlzError::DestinationUnderflow);
        }
        let val = buf[d + disp];
        d -= 1;
        buf[d] = val;
        j += 1;
    }
    Ok(d)
}

/// Decodes one token read downwards from `src`, written downwards from
/// `dst`; gives the positions after.
fn token_in(buf: &mut [u8], src: usize, dst: usize, reference: bool) -> (r: Result<
    (usize, usize),
    BlzError,
>)
    requires
        src <= old(buf)@.len(),
        dst < old(buf)@.len(),
    ensures
        match token(old(buf)@, src as int, dst as int, reference) {
            Ok((b1, s1, d1)) => r matches Ok((rs, rd)) && rs == s1 && rd == d1 && final(buf)@
                == b1,
            Err((b1, e)) => r == Err::<(usize, usize), BlzError>(e) && final(buf)@ == b1,
        },
        final(buf)@.len() == old(buf)@.len(),
        r matches Ok((s1, d1)) ==> s1 < src && d1 <= dst,
        reference ==> (r matches Ok((s1, d1)) ==> {
            let a = old(buf)@[src - 1];
            let lo = old(buf)@[src - 2];
            let disp = (((a & 0x0fu8) as int) * 256 + lo as int) + 2;
            &&& d1 == dst - ((a >> 4u8) as int + 3)
            &&& forall|k: int| d1 <= k < dst ==> #[trigger] final(buf)@[k] == final(buf)@[k + 1 + disp]
        }),
{
    proof {
        lemma_token_bounds(buf@, src as int, dst as int, reference);
        if reference && src >= 2 {
            lemma_token_reference(buf@, src as int, dst as int);
        }
    }
    if src == 0 {
        return Err(BlzError::SourceUnderflow);
    }
    if !reference {
        if dst == 0 {
            return Err(BlzError::DestinationUnderflow);
        }
        buf[dst - 1] = buf[src - 1];
        return Ok((src - 1, dst - 1));
    }
    if src == 1 {
        return Err(BlzError::SourceUnderflow);
    }
    let a = buf[src - 1] as u32;
    let b = buf[src - 2] as u32;
    assert((((a << 8) | b) & !0xf000u32) == (a % 16) * 256 + b && a >> 4 == a / 16) by (bit_vector)
        requires
            a < 256,
            b < 256,
    ;
    let disp = ((((a << 8) | b) & !0xf000) + 2) as usize;
    let count = (a >> 4) + 3;
    match copy_back_in(buf, dst, disp, count) {
        Ok(d1) => Ok((src - 2, d1)),
        Err(e) => Err(e),
    }
}

/// Checks the footer that ends at `offset`, as [`extract`] needs it.
pub fn check_footer(buf: &[u8], offset: usize) -> (r: Result<(), BlzError>)
    ensures
        r == footer_check(buf@, offset as int),
{
    if offset >= buf.len() {
        return Err(BlzError::OffsetOutOfBounds);
    }
    if buf.len() - offset < 8 {
        return Err(BlzError::FooterTooShort);
    }
    if offset < 8 {
        return Err(BlzError::FooterBeforeStart);
    }
    let flags = le32_at(buf, offset - 8);
    assert(flags >> 24u32 == flags / 0x100_0000 && flags & 0x00ff_ffffu32 == flags % 0x100_0000)
        by (bit_vector);
    let footer_len = (flags >> 24) as usize;
    let compressed_len = (flags & 0x00ffffff) as usize;
    let dest_offset = le32_at(buf, offset - 4) as usize;
    if footer_len > buf.len() {
        return Err(BlzError::FooterTooLong);
    }
    if footer_len > offset {
        return Err(BlzError::FooterPastStart);
    }
    if compressed_len > offset - footer_len {
        return Err(BlzError::CompressedTooLong);
    }
    if dest_offset >= buf.len() - offset {
        return Err(BlzError::DestinationOutOfBounds);
    }
    Ok(())
}

/// Extracts the BLZ region whose footer ends at `offset`, in place, and
/// gives the range of the decompressed data.
///
/// The footer must pass [`check_footer`]. Compressed data that would make
/// decompression read or write outside the buffer is not decompressed
/// past that step: in place of an out-of-bounds access, which would stop
/// the program, the error for it is returned, and the buffer is left as
/// the steps before it made it.
pub fn extract(buf: &mut [u8], offset: usize) -> (r: Result<Range<usize>, BlzError>)
    requires
        footer_check(old(buf)@, offset as int) is Ok,
    ensures
        match blz_extract(old(buf)@, offset as int) {
            Ok((b1, s, e)) => r matches Ok(range) && range.start == s && range.end == e
                && final(buf)@ == b1,
            Err((b1, err)) => r == Err::<Range<usize>, BlzError>(err) && final(buf)@ == b1,
        },
        final(buf)@.len() == old(buf)@.len(),
        r matches Err(e) ==> stops_decompression(e),
        r matches Ok(range) ==> {
            &&& range.start <= range.end < old(buf)@.len()
            &&& range.end == offset + footer_dest_offset(old(buf)@, offset as int)
            &&& forall|k: int|
                0 <= k < range.start || range.end <= k < old(buf)@.len() ==> final(buf)@[k]
                    == old(buf)@[k]
        },
{
    proof {
        lemma_extract_frame(buf@, offset as int);
    }
    let mut compressed_end = offset;
    let flags = le32_at(buf, compressed_end - 8);
    assert(flags >> 24u32 == flags / 0x100_0000 && flags & 0x00ff_ffffu32 == flags % 0x100_0000)
        by (bit_vector);
    let footer_len = (flags >> 24) as usize;
    let compressed_len = (flags & 0x00ffffff) as usize;
    let dest_offset = le32_at(buf, compressed_end - 4) as usize;
    assert(dest_offset == footer_dest_offset(old(buf)@, offset as int));
    assert(footer_len == footer_flags(old(buf)@, offset as int) / 0x100_0000);
    assert(offset + dest_offset < old(buf)@.len());
    assert(old(buf)@.len() == buf.len());
    compressed_end -= footer_len;
    let compressed_start = offset - compressed_len;
    let dest_end = offset + dest_offset;
    let mut dest = dest_end;
    let ghost target = groups(buf@, compressed_end as int, dest as int, compressed_start as int);
    assert(blz_extract(old(buf)@, offset as int) == match target {
        Ok((b1, _, d1)) => Ok((b1, d1, dest_end as int)),
        Err(e) => Err(e),
    });

    while compressed_end > compressed_start
        invariant
            buf@.len() == old(buf)@.len(),
            compressed_end <= buf@.len(),
            dest < buf@.len(),
            groups(buf@, compressed_end as int, dest as int, compressed_start as int) == target,
            blz_extract(old(buf)@, offset as int) == match target {
                Ok((b1, _, d1)) => Ok((b1, d1, dest_end as int)),
                Err(e) => Err(e),
            },
            blz_extract(old(buf)@, offset as int) matches Err((_, e)) ==> stops_decompression(e),
        decreases compressed_end,
    {
        compressed_end -= 1;
        let block_flags = buf[compressed_end];
        let ghost g_buf = buf@;
        let ghost g_src = compressed_end as int;
        let ghost g_dst = dest as int;
        let ghost group = tokens(g_buf, g_src, g_dst, compressed_start as int, block_flags, 0);
        proof {
            lemma_tokens_bounds(g_buf, g_src, g_dst, compressed_start as int, block_flags, 0);
        }
        assert(target == match group {
            Ok((b1, s1, d1)) => groups(b1, s1, d1, compressed_start as int),
            Err(e) => Err(e),
        });

        let mut i: u8 = 0;
        loop
            invariant_except_break
                tokens(buf@, compressed_end as int, dest as int, compressed_start as int, block_flags, i as int) == group,
            invariant
                i <= 8,
                buf@.len() == old(buf)@.len(),
                compressed_end <= buf@.len(),
                dest < buf@.len(),
                target == match group {
                    Ok((b1, s1, d1)) => groups(b1, s1, d1, compressed_start as int),
                    Err(e) => Err(e),
                },
                blz_extract(old(buf)@, offset as int) == match target {
                    Ok((b1, _, d1)) => Ok((b1, d1, dest_end as int)),
                    Err(e) => Err(e),
                },
                blz_extract(old(buf)@, offset as int) matches Err((_, e)) ==> stops_decompression(e),
            ensures
                compressed_end <= buf@.len(),
                dest < buf@.len(),
                group == Ok::<BlzState, (Seq<u8>, BlzError)>((buf@, compressed_end as int, dest as int)),
            decreases 8 - i,
        {
            if i >= 8 {
                break;
            }
            let reference = block_flags & (0x80u8 >> i) != 0;
            match token_in(buf, compressed_end, dest, reference) {
                Ok((s1, d1)) => {
                    compressed_end = s1;
                    dest = d1;
                },
                Err(e) => {
                    return Err(e);
                },
            }
            if compressed_end <= compressed_start {
                break;
            }
            i += 1;
        }
    }

    Ok(dest..dest_end)
}

} // verus!
