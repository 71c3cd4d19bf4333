//! The ARM9 and ARM7 overlay tables: one 32-byte entry per overlay, giving
//! its id, load address, sizes, static initializer range and file.

use vstd::prelude::*;
use crate::bytes::{le16, le32, read_u16_le, read_u32_le};
use crate::error::LoadError;
use crate::file_table::{FileId, FileName, FileSpec, FileTable, NameSpec};
use crate::header::NdsHeader;

verus! {

/// An overlay.
#[derive(Debug, Clone, Copy)]
pub struct Overlay {
    address: u32,
    size: u32,
    pad_size: u32,
    file_id: FileId,
    static_initializer_start: u32,
    static_initializer_end: u32,
}

/// What an [`Overlay`] stands for.
pub ghost struct OverlaySpec {
    pub address: u32,
    pub size: u32,
    pub pad_size: u32,
    pub file_id: int,
    pub static_initializer_start: u32,
    pub static_initializer_end: u32,
}

impl View for Overlay {
    type V = OverlaySpec;

    closed spec fn view(&self) -> OverlaySpec {
        OverlaySpec {
            address: self.address,
            size: self.size,
            pad_size: self.pad_size,
            file_id: self.file_id.idx(),
            static_initializer_start: self.static_initializer_start,
            static_initializer_end: self.static_initializer_end,
        }
    }
}

impl Overlay {
    /// The file that holds the overlay.
    pub fn file_id(&self) -> (r: FileId)
        ensures
            r.idx() == self@.file_id,
    {
        self.file_id
    }
}

/// The size of an overlay table entry.
pub const OVERLAY_ENTRY_LEN: usize = 0x20;

/// The overlay of the entry `chunk`, which must be entry `n` and name an
/// overlay file among `files`.
pub open spec fn overlay_entry(chunk: Seq<u8>, n: int, files: Seq<FileSpec>) -> Result<
    OverlaySpec,
    LoadError,
> {
    let id = le32(chunk);
    let sis = le32(chunk.skip(16));
    let sie = le32(chunk.skip(20));
    let file_id = le16(chunk.skip(24));
    if id != n {
        Err(LoadError::NonsequentialOverlayIds)
    } else if sie < sis {
        Err(LoadError::StaticInitializerOrder)
    } else if file_id >= files.len() {
        Err(LoadError::InvalidFileId)
    } else if !(files[file_id].name is Overlay) {
        Err(LoadError::NotOverlayFile)
    } else {
        Ok(
            OverlaySpec {
                address: le32(chunk.skip(4)) as u32,
                size: le32(chunk.skip(8)) as u32,
                pad_size: le32(chunk.skip(12)) as u32,
                file_id,
                static_initializer_start: sis as u32,
                static_initializer_end: sie as u32,
            },
        )
    }
}

/// The overlays of the first `n` entries of `table`.
pub open spec fn overlay_entries(table: Seq<u8>, files: Seq<FileSpec>, n: nat) -> Result<
    Seq<OverlaySpec>,
    LoadError,
>
    decreases n,
{
    if n == 0 {
        Ok(seq![])
    } else {
        match overlay_entries(table, files, (n - 1) as nat) {
            Ok(os) => match overlay_entry(
                table.subrange(32 * (n - 1), 32 * n as int),
                n - 1,
                files,
            ) {
                Ok(o) => Ok(os.push(o)),
                Err(e) => Err(e),
            },
            Err(e) => Err(e),
        }
    }
}

/// The overlays of the table of `size` bytes at `offset` in `rom`; bytes
/// past the last whole entry are ignored.
pub open spec fn overlays_of(rom: Seq<u8>, offset: int, size: int, files: Seq<FileSpec>) -> Result<
    Seq<OverlaySpec>,
    LoadError,
> {
    if offset > rom.len() {
        Err(LoadError::InvalidOverlayTableOffset)
    } else if size > rom.len() - offset {
        Err(LoadError::InvalidOverlayTableSize)
    } else {
        overlay_entries(rom.subrange(offset, offset + size), files, (size / 32) as nat)
    }
}

proof fn lemma_overlay_entries_err(table: Seq<u8>, files: Seq<FileSpec>, k: nat, n: nat)
    requires
        k <= n,
        overlay_entries(table, files, k) is Err,
    ensures
        overlay_entries(table, files, n) == overlay_entries(table, files, k),
    decreases n,
{
    if n > k {
        lemma_overlay_entries_err(table, files, k, (n - 1) as nat);
    }
}

/// Whether an overlay names an overlay file among `files` and its static
/// initializers do not end before they start.
pub open spec fn overlay_ok(o: OverlaySpec, files: Seq<FileSpec>) -> bool {
    &&& 0 <= o.file_id < files.len()
    &&& files[o.file_id].name is Overlay
    &&& o.static_initializer_start <= o.static_initializer_end
}

/// Every overlay of a table that loads names an overlay file, and its
/// static initializers do not end before they start.
pub proof fn lemma_overlays_ok(table: Seq<u8>, files: Seq<FileSpec>, n: nat)
    ensures
        overlay_entries(table, files, n) matches Ok(os) ==> os.len() == n && forall|k: int|
            0 <= k < os.len() ==> overlay_ok(#[trigger] os[k], files),
    decreases n,
{
    if n > 0 {
        lemma_overlays_ok(table, files, (n - 1) as nat);
        if let Ok(os) = overlay_entries(table, files, n) {
            let prev = overlay_entries(table, files, (n - 1) as nat)->Ok_0;
            assert(os == prev.push(os.last()));
            assert forall|k: int| 0 <= k < os.len() implies overlay_ok(#[trigger] os[k], files) by {
                if k < prev.len() {
                    assert(os[k] == prev[k]);
                }
            }
        }
    }
}

/// Every overlay of a table that loads names an overlay file, and its
/// static initializers do not end before they start.
pub proof fn lemma_overlays_of_ok(rom: Seq<u8>, offset: int, size: int, files: Seq<FileSpec>)
    ensures
        overlays_of(rom, offset, size, files) matches Ok(os) ==> forall|k: int|
            0 <= k < os.len() ==> overlay_ok(#[trigger] os[k], files),
{
    if offset <= rom.len() && size <= rom.len() - offset {
        lemma_overlays_ok(rom.subrange(offset, offset + size), files, (size / 32) as nat);
    }
}

/// Whether the 32-byte entry `chunk` is a good entry `n`: its id is `n`,
/// its static initializers do not end before they start, and its file id
/// names an overlay file among `files`.
pub open spec fn entry_acceptable(chunk: Seq<u8>, n: int, files: Seq<FileSpec>) -> bool {
    &&& le32(chunk) == n
    &&& le32(chunk.skip(16)) <= le32(chunk.skip(20))
    &&& le16(chunk.skip(24)) < files.len()
    &&& files[le16(chunk.skip(24))].name is Overlay
}

/// A good entry loads, as the overlay its fields give: an overlay whose
/// static initializers end where they start is accepted, and the only
/// entry refused for its static initializers is one whose end comes
/// before its start.
pub proof fn lemma_overlay_entry_accepts(chunk: Seq<u8>, n: int, files: Seq<FileSpec>)
    ensures
        entry_acceptable(chunk, n, files) ==> (overlay_entry(chunk, n, files) matches Ok(o) && {
            &&& o.file_id == le16(chunk.skip(24))
            &&& o.address == le32(chunk.skip(4))
            &&& o.size == le32(chunk.skip(8))
            &&& o.pad_size == le32(chunk.skip(12))
            &&& o.static_initializer_start == le32(chunk.skip(16))
            &&& o.static_initializer_end == le32(chunk.skip(20))
        }),
        overlay_entry(chunk, n, files) == Err::<OverlaySpec, LoadError>(
            LoadError::StaticInitializerOrder,
        ) ==> le32(chunk.skip(20)) < le32(chunk.skip(16)),
        overlay_entry(chunk, n, files) is Ok ==> entry_acceptable(chunk, n, files),
{
    crate::bytes::lemma_le32_range(chunk.skip(4));
    crate::bytes::lemma_le32_range(chunk.skip(8));
    crate::bytes::lemma_le32_range(chunk.skip(12));
    crate::bytes::lemma_le32_range(chunk.skip(16));
    crate::bytes::lemma_le32_range(chunk.skip(20));
}

/// A table whose first `n` entries are all good loads, giving one overlay
/// per entry, in order.
pub proof fn lemma_overlay_entries_accept(table: Seq<u8>, files: Seq<FileSpec>, n: nat)
    requires
        32 * n <= table.len(),
        forall|k: int|
            0 <= k < n ==> entry_acceptable(
                #[trigger] table.subrange(32 * k, 32 * k + 32),
                k,
                files,
            ),
    ensures
        (overlay_entries(table, files, n) matches Ok(os) && os.len() == n),
    decreases n,
{
    if n > 0 {
        lemma_overlay_entries_accept(table, files, (n - 1) as nat);
        let k = n - 1;
        assert(entry_acceptable(table.subrange(32 * k, 32 * k + 32), k, files));
        lemma_overlay_entry_accepts(table.subrange(32 * k, 32 * k + 32), k, files);
    }
}

/// An overlay table inside the ROM whose whole entries are all good loads,
/// giving one overlay per whole entry.
pub proof fn lemma_overlays_of_accept(rom: Seq<u8>, offset: int, size: int, files: Seq<FileSpec>)
    requires
        0 <= offset,
        0 <= size,
        offset + size <= rom.len(),
        forall|k: int|
            0 <= k < size / 32 ==> entry_acceptable(
                #[trigger] rom.subrange(offset + 32 * k, offset + 32 * k + 32),
                k,
                files,
            ),
    ensures
        (overlays_of(rom, offset, size, files) matches Ok(os) && os.len() == size / 32),
{
    let table = rom.subrange(offset, offset + size);
    let n = (size / 32) as nat;
    assert(32 * n <= size) by (nonlinear_arith)
        requires
            n == size / 32,
            0 <= size,
    ;
    assert forall|k: int| 0 <= k < n implies entry_acceptable(
        #[trigger] table.subrange(32 * k, 32 * k + 32),
        k,
        files,
    ) by {
        assert(32 * k + 32 <= 32 * n) by (nonlinear_arith)
            requires
                k < n,
        ;
        assert(table.subrange(32 * k, 32 * k + 32) =~= rom.subrange(
            offset + 32 * k,
            offset + 32 * k + 32,
        ));
        assert(entry_acceptable(rom.subrange(offset + 32 * k, offset + 32 * k + 32), k, files));
    }
    lemma_overlay_entries_accept(table, files, n);
}

/// An entry's last six bytes, past its file id, are not read.
pub proof fn lemma_overlay_entry_padding(c1: Seq<u8>, c2: Seq<u8>, n: int, files: Seq<FileSpec>)
    requires
        c1.len() == 32,
        c2.len() == 32,
        c1.take(26) == c2.take(26),
    ensures
        overlay_entry(c1, n, files) == overlay_entry(c2, n, files),
{
    assert forall|k: int| 0 <= k < 26 implies c1[k] == c2[k] by {
        assert(c1.take(26)[k] == c1[k]);
        assert(c2.take(26)[k] == c2[k]);
        assert(c1.take(26)[k] == c2.take(26)[k]);
    }
}

/// Tables that agree on their first `n` entries give the same first `n`
/// overlays.
pub proof fn lemma_overlay_entries_prefix(t1: Seq<u8>, t2: Seq<u8>, files: Seq<FileSpec>, n: nat)
    requires
        32 * n <= t1.len(),
        32 * n <= t2.len(),
        t1.take(32 * n as int) == t2.take(32 * n as int),
    ensures
        overlay_entries(t1, files, n) == overlay_entries(t2, files, n),
    decreases n,
{
    if n > 0 {
        assert forall|k: int| 0 <= k < 32 * n implies t1[k] == t2[k] by {
            assert(t1.take(32 * n as int)[k] == t1[k]);
            assert(t2.take(32 * n as int)[k] == t2[k]);
            assert(t1.take(32 * n as int)[k] == t2.take(32 * n as int)[k]);
        }
        assert(t1.take(32 * (n - 1)) =~= t2.take(32 * (n - 1)));
        lemma_overlay_entries_prefix(t1, t2, files, (n - 1) as nat);
        assert(t1.subrange(32 * (n - 1), 32 * n as int) =~= t2.subrange(32 * (n - 1), 32 * n as int));
    }
}

/// Tables whose first `n` entries agree on their first 26 bytes (all but
/// the six after the file id) give the same first `n` overlays.
pub proof fn lemma_overlay_entries_padding(t1: Seq<u8>, t2: Seq<u8>, files: Seq<FileSpec>, n: nat)
    requires
        32 * n <= t1.len(),
        32 * n <= t2.len(),
        forall|k: int|
            0 <= k < n ==> #[trigger] t1.subrange(32 * k, 32 * k + 26) == t2.subrange(
                32 * k,
                32 * k + 26,
            ),
    ensures
        overlay_entries(t1, files, n) == overlay_entries(t2, files, n),
    decreases n,
{
    if n > 0 {
        lemma_overlay_entries_padding(t1, t2, files, (n - 1) as nat);
        let k = n - 1;
        let c1 = t1.subrange(32 * k, 32 * n as int);
        let c2 = t2.subrange(32 * k, 32 * n as int);
        assert(t1.subrange(32 * k, 32 * k + 26) == t2.subrange(32 * k, 32 * k + 26));
        assert(c1.take(26) =~= t1.subrange(32 * k, 32 * k + 26));
        assert(c2.take(26) =~= t2.subrange(32 * k, 32 * k + 26));
        lemma_overlay_entry_padding(c1, c2, k, files);
    }
}

/// A trailing partial entry is ignored: a table of `size` bytes gives what
/// one of its whole entries gives.
pub proof fn lemma_overlays_of_whole_entries(rom: Seq<u8>, offset: int, size: int, files: Seq<FileSpec>)
    requires
        0 <= offset,
        0 <= size,
        offset + size <= rom.len(),
    ensures
        overlays_of(rom, offset, size, files) == overlays_of(rom, offset, size - size % 32, files),
{
    let whole = size - size % 32;
    assert(whole / 32 == size / 32 && 32 * (size / 32) == whole && 0 <= whole <= size) by (nonlinear_arith)
        requires
            whole == size - size % 32,
            0 <= size,
    ;
    let t1 = rom.subrange(offset, offset + size);
    let t2 = rom.subrange(offset, offset + whole);
    let n = (size / 32) as nat;
    assert(t1.take(32 * n as int) =~= t2.take(32 * n as int));
    lemma_overlay_entries_prefix(t1, t2, files, n);
}

/// The overlay tables of both processors.
#[derive(Debug, Clone)]
pub struct OverlayTable {
    arm9_overlays: Vec<Overlay>,
    arm7_overlays: Vec<Overlay>,
}

/// What overlays stand for.
pub open spec fn overlays_view(os: Seq<Overlay>) -> Seq<OverlaySpec> {
    os.map_values(|o: Overlay| o@)
}

impl OverlayTable {
    /// What the ARM9 overlays stand for.
    pub closed spec fn arm9(&self) -> Seq<OverlaySpec> {
        overlays_view(self.arm9_overlays@)
    }

    /// What the ARM7 overlays stand for.
    pub closed spec fn arm7(&self) -> Seq<OverlaySpec> {
        overlays_view(self.arm7_overlays@)
    }

    /// Loads the ARM9 and the ARM7 overlay table of `rom`, which `header`
    /// locates, against the files of `file_table`.
    pub fn load(rom: &[u8], header: &NdsHeader, file_table: &FileTable) -> (r: Result<
        Self,
        LoadError,
    >)
        ensures
            match overlays_of(
                rom@,
                header.arm9_overlay_offset as int,
                header.arm9_overlay_size as int,
                file_table@.files,
            ) {
                Ok(a9) => match overlays_of(
                    rom@,
                    header.arm7_overlay_offset as int,
                    header.arm7_overlay_size as int,
                    file_table@.files,
                ) {
                    Ok(a7) => r matches Ok(t) && t.arm9() == a9 && t.arm7() == a7,
                    Err(e) => r == Err::<Self, LoadError>(e),
                },
                Err(e) => r == Err::<Self, LoadError>(e),
            },
            r matches Ok(t) ==> {
                &&& forall|k: int| 0 <= k < t.arm9().len() ==> overlay_ok(#[trigger] t.arm9()[k], file_table@.files)
                &&& forall|k: int| 0 <= k < t.arm7().len() ==> overlay_ok(#[trigger] t.arm7()[k], file_table@.files)
            },
    {
        proof {
            lemma_overlays_of_ok(rom@, header.arm9_overlay_offset as int, header.arm9_overlay_size as int, file_table@.files);
            lemma_overlays_of_ok(rom@, header.arm7_overlay_offset as int, header.arm7_overlay_size as int, file_table@.files);
        }
        let arm9_overlays = match Self::load_single(
            rom,
            header.arm9_overlay_offset,
            header.arm9_overlay_size,
            file_table,
        ) {
            Ok(v) => v,
            Err(e) => return Err(e),
        };
        let arm7_overlays = match Self::load_single(
            rom,
            header.arm7_overlay_offset,
            header.arm7_overlay_size,
            file_table,
        ) {
            Ok(v) => v,
            Err(e) => return Err(e),
        };
        Ok(Self { arm9_overlays, arm7_overlays })
    }

    /// Loads the overlay table of `size` bytes at `offset` in `rom`.
    fn load_single(rom: &[u8], offset: u32, size: u32, file_table: &FileTable) -> (r: Result<
        Vec<Overlay>,
        LoadError,
    >)
        ensures
            match overlays_of(rom@, offset as int, size as int, file_table@.files) {
                Ok(os) => r matches Ok(v) && overlays_view(v@) == os,
                Err(e) => r == Err::<Vec<Overlay>, LoadError>(e),
            },
    {
        let off = offset as usize;
        let len = size as usize;

        if off > rom.len() {
            return Err(LoadError::InvalidOverlayTableOffset);
        }
        if len > rom.len() - off {
            return Err(LoadError::InvalidOverlayTableSize);
        }
        let table = vstd::slice::slice_subrange(rom, off, off + len);
        let ghost files = file_table@.files;

        let mut res: Vec<Overlay> = Vec::new();
        let count = len / OVERLAY_ENTRY_LEN;
        let mut n: usize = 0;
        assert(overlays_view(res@) =~= Seq::<OverlaySpec>::empty());
        while n < count
            invariant
                count == table@.len() / 32,
                n <= count,
                files == file_table@.files,
                overlays_of(rom@, offset as int, size as int, files) == overlay_entries(
                    table@,
                    files,
                    count as nat,
                ),
                overlay_entries(table@, files, n as nat) == Ok::<Seq<OverlaySpec>, LoadError>(
                    overlays_view(res@),
                ),
                res@.len() == n,
            decreases count - n,
        {
            assert((n + 1) * 32 <= table@.len()) by (nonlinear_arith)
                requires
                    n < count,
                    count == table@.len() / 32,
            ;
            assert(table@.len() == table.len());
            let chunk = vstd::slice::slice_subrange(table, n * 0x20, (n + 1) * 0x20);
            let result = Self::read_entry(chunk, n, file_table);
            match result {
                Ok(o) => {
                    let ghost before = overlays_view(res@);
                    res.push(o);
                    assert(overlays_view(res@) =~= before.push(o@));
                },
                Err(e) => {
                    proof {
                        lemma_overlay_entries_err(table@, files, (n + 1) as nat, count as nat);
                    }
                    return Err(e);
                },
            }
            n += 1;
        }
        Ok(res)
    }

    /// Reads the overlay table entry `chunk`, the `n`th of its table.
    fn read_entry(chunk: &[u8], n: usize, file_table: &FileTable) -> (r: Result<Overlay, LoadError>)
        requires
            chunk@.len() == 32,
        ensures
            match overlay_entry(chunk@, n as int, file_table@.files) {
                Ok(o) => r matches Ok(v) && v@ == o,
                Err(e) => r == Err::<Overlay, LoadError>(e),
            },
    {
        let ghost c = chunk@;
        let mut entry = chunk;
        let id = match read_u32_le(&mut entry) {
            Some(v) => v,
            None => return Err(LoadError::UnexpectedEof),
        };
        if id as usize != n {
            return Err(LoadError::NonsequentialOverlayIds);
        }
        let address = match read_u32_le(&mut entry) {
            Some(v) => v,
            None => return Err(LoadError::UnexpectedEof),
        };
        proof {
            crate::bytes::lemma_skip_skip(c, 4, 4);
        }
        let size = match read_u32_le(&mut entry) {
            Some(v) => v,
            None => return Err(LoadError::UnexpectedEof),
        };
        proof {
            crate::bytes::lemma_skip_skip(c, 8, 4);
        }
        let pad_size = match read_u32_le(&mut entry) {
            Some(v) => v,
            None => return Err(LoadError::UnexpectedEof),
        };
        proof {
            crate::bytes::lemma_skip_skip(c, 12, 4);
        }
        let static_initializer_start = match read_u32_le(&mut entry) {
            Some(v) => v,
            None => return Err(LoadError::UnexpectedEof),
        };
        proof {
            crate::bytes::lemma_skip_skip(c, 16, 4);
        }
        let static_initializer_end = match read_u32_le(&mut entry) {
            Some(v) => v,
            None => return Err(LoadError::UnexpectedEof),
        };
        proof {
            crate::bytes::lemma_skip_skip(c, 20, 4);
        }
        let file_id = match read_u16_le(&mut entry) {
            Some(v) => v,
            None => return Err(LoadError::UnexpectedEof),
        };

        if static_initializer_end < static_initializer_start {
            return Err(LoadError::StaticInitializerOrder);
        }

        let file_id = match file_table.checked_file_id(file_id) {
            Some(id) => match file_table.file(id).name() {
                FileName::Overlay(_) => id,
                FileName::Name(_) => return Err(LoadError::NotOverlayFile),
            },
            None => return Err(LoadError::InvalidFileId),
        };

        Ok(Overlay {
            address,
            size,
            pad_size,
            static_initializer_start,
            static_initializer_end,
            file_id,
        })
    }

    /// The ARM9 overlays.
    pub fn arm9_overlays(&self) -> (r: &[Overlay])
        ensures
            overlays_view(r@) == self.arm9(),
    {
        self.arm9_overlays.as_slice()
    }

    /// The ARM7 overlays.
    pub fn arm7_overlays(&self) -> (r: &[Overlay])
        ensures
            overlays_view(r@) == self.arm7(),
    {
        self.arm7_overlays.as_slice()
    }
}

} // verus!
