//! What is taken out of a ROM image: the ARM binaries, the decompressed
//! ARM9 binary and the overlay files.

use vstd::prelude::*;
use crate::blz::{blz_extract, check_footer, extract, BlzError};
use crate::file_table::{File, FileName, FileSpec, FileTable, NameSpec};
use crate::header::NdsHeader;
use crate::overlay::{Overlay, OverlaySpec, overlays_view};

verus! {

/// The `size` bytes at `offset` of `rom`. `range_name` names the range
/// for callers that report a range that does not fit.
pub fn checked_rom_range<'a>(rom: &'a [u8], offset: u32, size: u32, range_name: &str) -> (r: &'a [u8])
    requires
        offset + size <= rom@.len(),
    ensures
        r@ == rom@.subrange(offset as int, offset + size),
{
    assert(rom@.len() == rom.len());
    let start = offset as usize;
    let end = start + size as usize;
    vstd::slice::slice_subrange(rom, start, end)
}

/// Why the ARM9 binary cannot be decompressed.
#[derive(Debug, Clone, Copy, PartialEq, Eq)]
pub enum Arm9Error {
    /// The end of the ARM9 binary does not fit 32 bits.
    EndOverflow,
    /// The compressed data is malformed.
    Blz(BlzError),
    /// The decompressed data starts before the ARM9 binary.
    StartsBeforeBinary,
}

/// The decompressed ARM9 binary of `rom`, which starts at `offset` and is
/// `size` bytes long: the bytes of the binary before the decompressed
/// data, then the decompressed data.
pub open spec fn arm9_extracted(rom: Seq<u8>, offset: int, size: int) -> Result<Seq<u8>, Arm9Error> {
    if offset + size > u32::MAX {
        Err(Arm9Error::EndOverflow)
    } else {
        match blz_extract(rom, offset + size) {
            Ok((b, s, e)) => if s < offset {
                Err(Arm9Error::StartsBeforeBinary)
            } else {
                Ok(rom.subrange(offset, s) + b.subrange(s, e))
            },
            Err((_, err)) => Err(Arm9Error::Blz(err)),
        }
    }
}

/// Decompresses the ARM9 binary that `header` locates in `rom`, in a copy
/// of `rom`, and gives the bytes of the binary before the decompressed
/// data followed by the decompressed data.
pub fn extract_arm9(rom: &[u8], header: &NdsHeader) -> (r: Result<Vec<u8>, Arm9Error>)
    ensures
        match arm9_extracted(rom@, header.arm9_rom_offset as int, header.arm9_size as int) {
            Ok(v) => r matches Ok(out) && out@ == v,
            Err(e) => r == Err::<Vec<u8>, Arm9Error>(e),
        },
{
    proof {
        crate::blz::lemma_extract_frame(rom@, header.arm9_rom_offset + header.arm9_size);
    }
    if header.arm9_size > u32::MAX - header.arm9_rom_offset {
        return Err(Arm9Error::EndOverflow);
    }
    let compressed_end = header.arm9_rom_offset + header.arm9_size;
    let mut extract_buf = vstd::slice::slice_to_vec(rom);
    match check_footer(extract_buf.as_slice(), compressed_end as usize) {
        Ok(()) => {},
        Err(e) => return Err(Arm9Error::Blz(e)),
    }
    let extracted_range = match extract(extract_buf.as_mut_slice(), compressed_end as usize) {
        Ok(range) => range,
        Err(e) => return Err(Arm9Error::Blz(e)),
    };
    let arm9_offset = header.arm9_rom_offset as usize;
    if extracted_range.start < arm9_offset {
        return Err(Arm9Error::StartsBeforeBinary);
    }
    let mut arm9_extracted = vstd::slice::slice_to_vec(
        vstd::slice::slice_subrange(rom, arm9_offset, extracted_range.start),
    );
    let mut decompressed = vstd::slice::slice_to_vec(
        vstd::slice::slice_subrange(
            extract_buf.as_slice(),
            extracted_range.start,
            extracted_range.end,
        ),
    );
    arm9_extracted.append(&mut decompressed);
    Ok(arm9_extracted)
}

/// Why an overlay's file cannot be written out.
#[derive(Debug, Clone, Copy, PartialEq, Eq)]
pub enum OverlayFileError {
    /// The overlay names no file of the table.
    InvalidFileId,
    /// The overlay names a named file, not an overlay file.
    NotOverlayFile,
}

/// The number and data of the overlay file of each overlay, in order, up to
/// the first overlay that names no file, or a named file, of the table; and
/// why that one cannot be written out, if there is one.
pub open spec fn overlay_outputs_of(os: Seq<OverlaySpec>, files: Seq<FileSpec>) -> (
    Seq<(nat, Seq<u8>)>,
    Option<OverlayFileError>,
)
    decreases os.len(),
{
    if os.len() == 0 {
        (seq![], None)
    } else {
        let (prev, stop) = overlay_outputs_of(os.drop_last(), files);
        if stop is Some {
            (prev, stop)
        } else {
            let id = os.last().file_id;
            if !(0 <= id < files.len()) {
                (prev, Some(OverlayFileError::InvalidFileId))
            } else {
                match files[id].name {
                    NameSpec::Overlay(n) => (prev.push((n, files[id].data)), None),
                    NameSpec::Name(_) => (prev, Some(OverlayFileError::NotOverlayFile)),
                }
            }
        }
    }
}

proof fn lemma_outputs_stop(os: Seq<OverlaySpec>, files: Seq<FileSpec>, k: int, n: int)
    requires
        0 <= k <= n <= os.len(),
        overlay_outputs_of(os.take(k), files).1 is Some,
    ensures
        overlay_outputs_of(os.take(n), files) == overlay_outputs_of(os.take(k), files),
    decreases n,
{
    if n > k {
        lemma_outputs_stop(os, files, k, n - 1);
        assert(os.take(n).drop_last() =~= os.take(n - 1));
    }
}

/// What overlay outputs stand for.
pub open spec fn outputs_view<'a>(v: Seq<(usize, &'a [u8])>) -> Seq<(nat, Seq<u8>)> {
    v.map_values(|p: (usize, &'a [u8])| (p.0 as nat, p.1@))
}

/// For each overlay, in order, the number and data of its overlay file, up
/// to the first overlay that names no file, or a named file, of the table;
/// and why that one cannot be written out, if there is one.
pub fn overlay_outputs<'a>(file_table: &'a FileTable, overlays: &[Overlay]) -> (r: (
    Vec<(usize, &'a [u8])>,
    Option<OverlayFileError>,
))
    ensures
        (outputs_view(r.0@), r.1) == overlay_outputs_of(overlays_view(overlays@), file_table@.files),
{
    let ghost os = overlays_view(overlays@);
    let ghost files = file_table@.files;
    let mut out: Vec<(usize, &'a [u8])> = Vec::new();
    let mut k: usize = 0;
    assert(os.take(0) =~= Seq::<OverlaySpec>::empty());
    assert(outputs_view(out@) =~= Seq::<(nat, Seq<u8>)>::empty());
    while k < overlays.len()
        invariant
            os == overlays_view(overlays@),
            files == file_table@.files,
            k <= overlays@.len(),
            overlay_outputs_of(os.take(k as int), files) == (
                outputs_view(out@),
                None::<OverlayFileError>,
            ),
        decreases overlays@.len() - k,
    {
        assert(os.take(k + 1).drop_last() =~= os.take(k as int));
        assert(os.take(k + 1).last() == overlays@[k as int]@);
        let id = overlays[k].file_id();
        let stop = if id.as_idx() >= file_table.file_count() {
            OverlayFileError::InvalidFileId
        } else {
            let file = file_table.file(id);
            match file.name() {
                FileName::Overlay(num) => {
                    let ghost before = outputs_view(out@);
                    out.push((*num, file.data()));
                    assert(outputs_view(out@) =~= before.push((*num as nat, file@.data)));
                    k += 1;
                    continue;
                },
                FileName::Name(_) => OverlayFileError::NotOverlayFile,
            }
        };
        proof {
            lemma_outputs_stop(os, files, k + 1, os.len() as int);
            assert(os.take(os.len() as int) =~= os);
        }
        return (out, Some(stop));
    }
    assert(os.take(k as int) =~= os);
    (out, None)
}

} // verus!
