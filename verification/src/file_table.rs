//! The file system of a ROM image: the file name table (FNT), which holds
//! the directory tree, and the file allocation table (FAT), which holds the
//! start and end of each file's data.
//!
//! The FNT starts with one 8-byte entry per directory (offset of its name
//! list, id of its first file, id of its parent; the root's entry holds the
//! directory count in place of a parent). A name list is a run of entries,
//! each a byte whose low 7 bits are the name length and whose top bit marks
//! a subdirectory, then the name, then, for a subdirectory, its 16-bit id; a
//! zero byte ends the list. The files below the root's first file id are the
//! overlays, whose FAT entries come first.

use vstd::prelude::*;
use crate::bytes::{le16, le32, read_bytes, read_u16_le, read_u32_le, read_u8, skip_bytes};
use crate::error::LoadError;
use crate::header::NdsHeader;
use ascii::AsciiString;

verus! {

/// The characters of a string of ASCII bytes.
pub open spec fn ascii_chars(b: Seq<u8>) -> Seq<char> {
    b.map_values(|x: u8| x as char)
}

/// Whether every byte is ASCII.
pub open spec fn all_ascii(b: Seq<u8>) -> bool {
    forall|k: int| 0 <= k < b.len() ==> b[k] < 0x80
}

/// `ascii::AsciiString::from_ascii`, then `String::from` on the ASCII
/// string it gives. Claimed: it succeeds exactly when every byte is ASCII,
/// and the string holds the bytes as characters.
#[verifier::external_body]
fn ascii_string(bytes: Vec<u8>) -> (r: Option<String>)
    ensures
        r is Some <==> all_ascii(bytes@),
        r matches Some(s) ==> s@ == ascii_chars(bytes@),
{
    match AsciiString::from_ascii(bytes) {
        Ok(s) => Some(String::from(s)),
        Err(_) => None,
    }
}

/// The name of a file: overlays are known by number, other files by name.
#[derive(Debug, Clone)]
pub enum FileName {
    Overlay(usize),
    Name(String),
}

/// What a [`FileName`] stands for.
pub ghost enum NameSpec {
    Overlay(nat),
    Name(Seq<char>),
}

impl View for FileName {
    type V = NameSpec;

    open spec fn view(&self) -> NameSpec {
        match self {
            FileName::Overlay(n) => NameSpec::Overlay(*n as nat),
            FileName::Name(s) => NameSpec::Name(s@),
        }
    }
}

/// A file: its name and its data.
#[derive(Debug, Clone)]
pub struct File {
    name: FileName,
    data: Vec<u8>,
}

/// What a [`File`] stands for.
pub ghost struct FileSpec {
    pub name: NameSpec,
    pub data: Seq<u8>,
}

impl View for File {
    type V = FileSpec;

    closed spec fn view(&self) -> FileSpec {
        FileSpec { name: self.name@, data: self.data@ }
    }
}

impl File {
    pub fn name(&self) -> (r: &FileName)
        ensures
            r@ == self@.name,
    {
        &self.name
    }

    pub fn data(&self) -> (r: &[u8])
        ensures
            r@ == self@.data,
    {
        self.data.as_slice()
    }
}

/// The index of a file in the file table.
#[derive(Debug, Clone, Copy)]
pub struct FileId(u16);

impl FileId {
    /// The raw id.
    pub closed spec fn raw(self) -> u16 {
        self.0
    }

    /// The id of the file at `raw`.
    pub closed spec fn from_raw(raw: u16) -> FileId {
        FileId(raw)
    }

    /// The index that the id names.
    pub open spec fn idx(self) -> int {
        self.raw() as int
    }


    pub fn as_idx(self) -> (r: usize)
        ensures
            r == self.idx(),
    {
        self.0 as usize
    }
}

/// The index of a directory in the file table. The raw id has the top
/// nibble set; the index is in the low 12 bits.
#[derive(Debug, Clone, Copy)]
pub struct DirId(u16);

impl DirId {
    /// The raw id.
    pub closed spec fn raw(self) -> u16 {
        self.0
    }

    /// The id `raw`.
    pub closed spec fn from_raw(raw: u16) -> DirId {
        DirId(raw)
    }

    /// The index that the id names: the raw id without its top nibble.
    pub open spec fn idx(self) -> int {
        (self.raw() % 0x1000) as int
    }


    pub fn as_idx(self) -> (r: usize)
        ensures
            r == self.idx(),
    {
        let raw = self.0;
        assert(raw & !0xf000u16 == raw % 0x1000) by (bit_vector);
        (raw & !0xf000) as usize
    }
}

/// An entry of a directory.
#[derive(Debug, Clone, Copy)]
pub enum Entry {
    File(FileId),
    Directory(DirId),
}

/// A directory: its name and its entries, in table order.
#[derive(Debug, Clone)]
pub struct Directory {
    name: String,
    entries: Vec<Entry>,
}

/// What a [`Directory`] stands for.
pub ghost struct DirSpec {
    pub name: Seq<char>,
    pub entries: Seq<Entry>,
}

impl View for Directory {
    type V = DirSpec;

    closed spec fn view(&self) -> DirSpec {
        DirSpec { name: self.name@, entries: self.entries@ }
    }
}

impl Directory {
    pub fn name(&self) -> (r: &str)
        ensures
            r@ == self@.name,
    {
        self.name.as_str()
    }

    /// The entries, in table order.
    pub fn iter(&self) -> (r: Vec<Entry>)
        ensures
            r@ == self@.entries,
    {
        let mut r: Vec<Entry> = Vec::new();
        let mut k: usize = 0;
        while k < self.entries.len()
            invariant
                k <= self.entries@.len(),
                r@ == self.entries@.take(k as int),
            decreases self.entries@.len() - k,
        {
            r.push(self.entries[k]);
            k += 1;
            assert(r@ =~= self.entries@.take(k as int));
        }
        assert(self.entries@.take(k as int) =~= self.entries@);
        r
    }
}

/// What a [`FileTable`] stands for.
pub ghost struct TableSpec {
    pub directories: Seq<DirSpec>,
    pub files: Seq<FileSpec>,
}

/// The name of the root directory.
pub open spec fn root_name() -> Seq<char> {
    seq!['r', 'o', 'o', 't']
}

/// Whether an entry of directory `i`, of `n` directories, names a
/// directory after `i`, if it names one.
pub open spec fn points_after(e: Entry, i: int, n: int) -> bool {
    match e {
        Entry::Directory(id) => i < id.idx() < n,
        Entry::File(_) => true,
    }
}

/// Whether directories form a tree rooted at directory 0: every directory
/// entry names a directory that comes after the one that holds it.
pub open spec fn is_tree(dirs: Seq<DirSpec>) -> bool {
    &&& dirs.len() >= 1
    &&& forall|i: int, j: int|
        0 <= i < dirs.len() && 0 <= j < dirs[i].entries.len() ==> points_after(
            #[trigger] dirs[i].entries[j],
            i,
            dirs.len() as int,
        )
}

/// The directory tree and the files of a ROM image.
#[derive(Debug)]
pub struct FileTable {
    directories: Vec<Directory>,
    files: Vec<File>,
}

impl View for FileTable {
    type V = TableSpec;

    closed spec fn view(&self) -> TableSpec {
        TableSpec {
            directories: self.directories@.map_values(|d: Directory| d@),
            files: self.files@.map_values(|f: File| f@),
        }
    }
}

// ---------------------------------------------------------------------
// The file allocation table.

/// The data of the file whose allocation entry the cursor `alloc` stands
/// at: the ROM bytes from its start to its end address, which must lie
/// past the secure area and inside the ROM.
pub open spec fn file_data(rom: Seq<u8>, alloc: Seq<u8>) -> Result<Seq<u8>, LoadError> {
    if alloc.len() < 8 {
        Err(LoadError::UnexpectedEof)
    } else {
        let start = le32(alloc);
        let end = le32(alloc.skip(4));
        if start < 0x8000 || start > end || end > rom.len() {
            Err(LoadError::InvalidFileDataAddress)
        } else {
            Ok(rom.subrange(start, end))
        }
    }
}

/// The first `n` files, the overlays, whose allocation entries follow each
/// other from the cursor `alloc`.
pub open spec fn overlay_files(rom: Seq<u8>, alloc: Seq<u8>, n: nat) -> Result<
    Seq<FileSpec>,
    LoadError,
>
    decreases n,
{
    if n == 0 {
        Ok(seq![])
    } else {
        match overlay_files(rom, alloc, (n - 1) as nat) {
            Ok(fs) => match file_data(rom, alloc.skip(8 * (n - 1))) {
                Ok(d) => Ok(fs.push(FileSpec { name: NameSpec::Overlay((n - 1) as nat), data: d })),
                Err(e) => Err(e),
            },
            Err(e) => Err(e),
        }
    }
}

// ---------------------------------------------------------------------
// Walking the name lists.

/// A name list being walked: the directory it belongs to, the cursor in
/// it, and the id of its next file.
pub ghost struct Frame {
    pub dir: int,
    pub meta: Seq<u8>,
    pub file_idx: int,
}

/// The state of the walk: the directories and files found so far, the
/// name lists still to walk (the last one first), and the cursor in the
/// directory entries.
pub ghost struct Walk {
    pub dirs: Seq<DirSpec>,
    pub files: Seq<FileSpec>,
    pub stack: Seq<Frame>,
    pub entries: Seq<u8>,
}

/// The directories with `e` appended to the entries of directory `i`.
pub open spec fn add_entry(dirs: Seq<DirSpec>, i: int, e: Entry) -> Seq<DirSpec> {
    Seq::new(
        dirs.len(),
        |k: int|
            if k == i {
                DirSpec { name: dirs[k].name, entries: dirs[k].entries.push(e) }
            } else {
                dirs[k]
            },
    )
}

/// Whether a name is `.` or `..`.
pub open spec fn is_dot_name(name: Seq<u8>) -> bool {
    name == seq![0x2eu8] || name == seq![0x2eu8, 0x2eu8]
}

/// Walks one entry of the last name list on the stack.
#[verifier::opaque]
pub open spec fn walk_step(rom: Seq<u8>, meta_start: Seq<u8>, alloc_start: Seq<u8>, w: Walk) -> Result<
    Walk,
    LoadError,
> {
    let f = w.stack.last();
    let rest = w.stack.drop_last();
    let meta = f.meta;
    if meta.len() < 1 {
        Err(LoadError::UnexpectedEof)
    } else {
        let flags = meta[0];
        let name_len = flags % 0x80;
        let meta1 = meta.skip(1);
        if name_len == 0 {
            Ok(Walk { stack: rest, ..w })
        } else if meta1.len() < name_len {
            Err(LoadError::UnexpectedEof)
        } else {
            let name = meta1.take(name_len as int);
            let meta2 = meta1.skip(name_len as int);
            if !all_ascii(name) {
                Err(LoadError::NameNotAscii)
            } else if is_dot_name(name) {
                Err(LoadError::DotName)
            } else if flags >= 0x80 {
                let e = w.entries;
                if e.len() < 8 {
                    Err(LoadError::UnexpectedEof)
                } else {
                    let offset = le32(e);
                    let first_file_id = le16(e.skip(4));
                    let parent = le16(e.skip(6));
                    if parent % 0x1000 >= w.dirs.len() {
                        Err(LoadError::InvalidParentId)
                    } else if meta2.len() < 2 {
                        Err(LoadError::UnexpectedEof)
                    } else {
                        let dir_id = le16(meta2);
                        if dir_id % 0x1000 != w.dirs.len() {
                            Err(LoadError::NonsequentialDirId)
                        } else if offset > meta_start.len() {
                            Err(LoadError::OutOfBounds)
                        } else {
                            let dirs = add_entry(
                                w.dirs.push(DirSpec { name: ascii_chars(name), entries: seq![] }),
                                f.dir,
                                Entry::Directory(DirId::from_raw(dir_id as u16)),
                            );
                            let stack = rest.push(Frame { meta: meta2.skip(2), ..f }).push(
                                Frame {
                                    dir: dir_id % 0x1000,
                                    meta: meta_start.skip(offset),
                                    file_idx: first_file_id,
                                },
                            );
                            Ok(Walk { dirs, files: w.files, stack, entries: e.skip(8) })
                        }
                    }
                }
            } else if f.file_idx * 8 > alloc_start.len() {
                Err(LoadError::OutOfBounds)
            } else {
                match file_data(rom, alloc_start.skip(f.file_idx * 8)) {
                    Ok(data) => if f.file_idx > 0xffff {
                        Err(LoadError::FileIdOverflow)
                    } else {
                        let dirs = add_entry(
                            w.dirs,
                            f.dir,
                            Entry::File(FileId::from_raw(f.file_idx as u16)),
                        );
                        let files = w.files.push(
                            FileSpec { name: NameSpec::Name(ascii_chars(name)), data },
                        );
                        let stack = rest.push(Frame { meta: meta2, file_idx: f.file_idx + 1, ..f });
                        Ok(Walk { dirs, files, stack, entries: w.entries })
                    },
                    Err(err) => Err(err),
                }
            }
        }
    }
}

/// The bytes left in the name lists on the stack, and one per list.
pub open spec fn stack_measure(s: Seq<Frame>) -> nat
    decreases s.len(),
{
    if s.len() == 0 {
        0
    } else {
        stack_measure(s.drop_last()) + s.last().meta.len() + 1
    }
}

/// A walk step adds a directory, or shrinks what is left to walk.
pub proof fn lemma_walk_step_progress(
    rom: Seq<u8>,
    meta_start: Seq<u8>,
    alloc_start: Seq<u8>,
    w: Walk,
)
    requires
        w.stack.len() > 0,
    ensures
        walk_step(rom, meta_start, alloc_start, w) matches Ok(w2) ==> {
            ||| w2.dirs.len() == w.dirs.len() + 1 && w2.dirs.len() <= 0x1000
            ||| w2.dirs.len() == w.dirs.len() && stack_measure(w2.stack) < stack_measure(w.stack)
        },
{
    reveal(walk_step);
    let f = w.stack.last();
    let rest = w.stack.drop_last();
    assert(stack_measure(w.stack) == stack_measure(rest) + f.meta.len() + 1);
    if let Ok(w2) = walk_step(rom, meta_start, alloc_start, w) {
        if w2.dirs.len() == w.dirs.len() {
            if w2.stack.len() == rest.len() + 1 {
                assert(w2.stack.drop_last() =~= rest);
            }
        }
    }
}

/// Walks the name lists until none is left.
pub open spec fn walk(rom: Seq<u8>, meta_start: Seq<u8>, alloc_start: Seq<u8>, w: Walk) -> Result<
    Walk,
    LoadError,
>
    decreases 0x1000 - w.dirs.len(), stack_measure(w.stack),
{
    if w.stack.len() == 0 {
        Ok(w)
    } else {
        match walk_step(rom, meta_start, alloc_start, w) {
            Ok(w2) => {
                proof {
                    lemma_walk_step_progress(rom, meta_start, alloc_start, w);
                }
                walk(rom, meta_start, alloc_start, w2)
            },
            Err(e) => Err(e),
        }
    }
}

/// The file table of `rom`, whose name table starts at `fnt` and whose
/// allocation table starts at `fat`.
pub open spec fn table_of(rom: Seq<u8>, fnt: int, fat: int) -> Result<TableSpec, LoadError> {
    if fnt > rom.len() {
        Err(LoadError::OutOfBounds)
    } else {
        let meta_start = rom.skip(fnt);
        if meta_start.len() < 8 {
            Err(LoadError::UnexpectedEof)
        } else {
            let root_offset = le32(meta_start);
            let root_file_id = le16(meta_start.skip(4));
            let total_dir_count = le16(meta_start.skip(6));
            if total_dir_count > 0x1000 {
                Err(LoadError::InvalidTotalDirCount)
            } else if fat > rom.len() {
                Err(LoadError::OutOfBounds)
            } else {
                let alloc_start = rom.skip(fat);
                match overlay_files(rom, alloc_start, root_file_id as nat) {
                    Ok(files) => if root_offset > meta_start.len() {
                        Err(LoadError::OutOfBounds)
                    } else {
                        let w0 = Walk {
                            dirs: seq![DirSpec { name: root_name(), entries: seq![] }],
                            files,
                            stack: seq![
                                Frame {
                                    dir: 0,
                                    meta: meta_start.skip(root_offset),
                                    file_idx: root_file_id,
                                },
                            ],
                            entries: meta_start.skip(8),
                        };
                        match walk(rom, meta_start, alloc_start, w0) {
                            Ok(w) => Ok(TableSpec { directories: w.dirs, files: w.files }),
                            Err(e) => Err(e),
                        }
                    },
                    Err(e) => Err(e),
                }
            }
        }
    }
}


/// Once the overlays fail to load, loading more of them fails the same way.
proof fn lemma_overlay_files_err(rom: Seq<u8>, alloc: Seq<u8>, k: nat, n: nat)
    requires
        k <= n,
        overlay_files(rom, alloc, k) is Err,
    ensures
        overlay_files(rom, alloc, n) == overlay_files(rom, alloc, k),
    decreases n,
{
    if n > k {
        lemma_overlay_files_err(rom, alloc, k, (n - 1) as nat);
    }
}

/// Whether every name list on the stack belongs to a known directory and
/// its next file id is at most `0x10000`.
pub open spec fn frames_ok(stack: Seq<Frame>, n: int) -> bool {
    forall|k: int|
        0 <= k < stack.len() ==> 0 <= #[trigger] stack[k].dir < n && 0 <= stack[k].file_idx
            <= 0x10000
}

/// A walk step keeps at most `0x1000` directories and the stack well
/// formed.
pub proof fn lemma_walk_step_frames(rom: Seq<u8>, meta_start: Seq<u8>, alloc_start: Seq<u8>, w: Walk)
    requires
        w.stack.len() > 0,
        w.dirs.len() <= 0x1000,
        frames_ok(w.stack, w.dirs.len() as int),
    ensures
        walk_step(rom, meta_start, alloc_start, w) matches Ok(w2) ==> {
            &&& w2.dirs.len() <= 0x1000
            &&& frames_ok(w2.stack, w2.dirs.len() as int)
        },
{
    reveal(walk_step);
    let f = w.stack.last();
    assert(w.stack[w.stack.len() - 1] == f);
    if let Ok(w2) = walk_step(rom, meta_start, alloc_start, w) {
        let n2 = w2.dirs.len() as int;
        assert forall|k: int| 0 <= k < w2.stack.len() implies 0 <= #[trigger] w2.stack[k].dir
            < n2 && 0 <= w2.stack[k].file_idx <= 0x10000 by {
            if k < w.stack.len() - 1 {
                assert(w2.stack[k] == w.stack[k]);
            }
        }
    }
}

/// Whether the files are the `m` overlays, in order and numbered by their
/// position, followed by named files.
pub open spec fn files_named(files: Seq<FileSpec>, m: int) -> bool {
    &&& 0 <= m <= files.len()
    &&& forall|k: int|
        0 <= k < files.len() ==> if k < m {
            #[trigger] files[k].name == NameSpec::Overlay(k as nat)
        } else {
            files[k].name is Name
        }
}

/// The overlays that load are numbered by their position.
pub proof fn lemma_overlay_files_named(rom: Seq<u8>, alloc: Seq<u8>, n: nat)
    ensures
        overlay_files(rom, alloc, n) matches Ok(fs) ==> fs.len() == n && files_named(fs, n as int),
    decreases n,
{
    if n > 0 {
        lemma_overlay_files_named(rom, alloc, (n - 1) as nat);
        if let Ok(fs) = overlay_files(rom, alloc, n) {
            let prev = overlay_files(rom, alloc, (n - 1) as nat)->Ok_0;
            assert forall|k: int| 0 <= k < fs.len() implies if k < n {
                #[trigger] fs[k].name == NameSpec::Overlay(k as nat)
            } else {
                fs[k].name is Name
            } by {
                if k < prev.len() {
                    assert(fs[k] == prev[k]);
                }
            }
        }
    }
}

/// A walk step keeps the directories a tree, the root's name, and the
/// overlays and named files in their places.
pub proof fn lemma_walk_step_tree(
    rom: Seq<u8>,
    meta_start: Seq<u8>,
    alloc_start: Seq<u8>,
    w: Walk,
    m: int,
)
    requires
        w.stack.len() > 0,
        is_tree(w.dirs),
        w.dirs.len() <= 0x1000,
        frames_ok(w.stack, w.dirs.len() as int),
        files_named(w.files, m),
    ensures
        walk_step(rom, meta_start, alloc_start, w) matches Ok(w2) ==> {
            &&& is_tree(w2.dirs)
            &&& w2.dirs[0].name == w.dirs[0].name
            &&& files_named(w2.files, m)
        },
{
    reveal(walk_step);
    let f = w.stack.last();
    assert(w.stack[w.stack.len() - 1] == f);
    if let Ok(w2) = walk_step(rom, meta_start, alloc_start, w) {
        let n2 = w2.dirs.len() as int;
        assert forall|i: int, j: int|
            0 <= i < w2.dirs.len() && 0 <= j < w2.dirs[i].entries.len() implies points_after(
            #[trigger] w2.dirs[i].entries[j],
            i,
            n2,
        ) by {
            if i < w.dirs.len() && j < w.dirs[i].entries.len() {
                assert(w2.dirs[i].entries[j] == w.dirs[i].entries[j]);
            }
        }
        assert forall|k: int| 0 <= k < w2.files.len() implies if k < m {
            #[trigger] w2.files[k].name == NameSpec::Overlay(k as nat)
        } else {
            w2.files[k].name is Name
        } by {
            if k < w.files.len() {
                assert(w2.files[k] == w.files[k]);
            }
        }
    }
}

/// Whether entry `e` names directory `k`.
pub open spec fn entry_names(e: Entry, k: int) -> bool {
    match e {
        Entry::Directory(d) => d.idx() == k,
        Entry::File(_) => false,
    }
}

/// Whether entry `j` of directory `x` names directory `k`.
pub open spec fn named_by(dirs: Seq<DirSpec>, k: int, x: int, j: int) -> bool {
    &&& 0 <= x < dirs.len()
    &&& 0 <= j < dirs[x].entries.len()
    &&& entry_names(dirs[x].entries[j], k)
}

/// Whether some entry names directory `k`.
pub open spec fn is_named(dirs: Seq<DirSpec>, k: int) -> bool {
    exists|x: int, j: int| #[trigger] named_by(dirs, k, x, j)
}

/// Whether every directory but the root is named by exactly one entry.
pub open spec fn named_once(dirs: Seq<DirSpec>) -> bool {
    &&& forall|k: int| 1 <= k < dirs.len() ==> #[trigger] is_named(dirs, k)
    &&& forall|k: int, x1: int, j1: int, x2: int, j2: int|
        #![trigger named_by(dirs, k, x1, j1), named_by(dirs, k, x2, j2)]
        named_by(dirs, k, x1, j1) && named_by(dirs, k, x2, j2) ==> x1 == x2 && j1 == j2
}

/// Appending a file entry keeps every directory named once.
proof fn lemma_named_once_file(dirs: Seq<DirSpec>, i: int, e: Entry)
    requires
        named_once(dirs),
        0 <= i < dirs.len(),
        e is File,
    ensures
        named_once(add_entry(dirs, i, e)),
{
    let d2 = add_entry(dirs, i, e);
    assert forall|k: int, x: int, j: int| #[trigger] named_by(d2, k, x, j) <==> named_by(dirs, k, x, j) by {
        if 0 <= x < dirs.len() && 0 <= j < dirs[x].entries.len() {
            assert(d2[x].entries[j] == dirs[x].entries[j]);
        }
    }
    assert forall|k: int| 1 <= k < d2.len() implies #[trigger] is_named(d2, k) by {
        assert(is_named(dirs, k));
        let (x, j) = choose|x: int, j: int| #[trigger] named_by(dirs, k, x, j);
        assert(named_by(d2, k, x, j));
    }
}

/// Adding a directory, named by a new entry of directory `i`, keeps every
/// directory named once.
proof fn lemma_named_once_dir(dirs: Seq<DirSpec>, i: int, name: Seq<char>, e: Entry)
    requires
        named_once(dirs),
        is_tree(dirs),
        0 <= i < dirs.len(),
        entry_names(e, dirs.len() as int),
    ensures
        named_once(add_entry(dirs.push(DirSpec { name, entries: seq![] }), i, e)),
{
    let n = dirs.len() as int;
    let d1 = dirs.push(DirSpec { name, entries: seq![] });
    let d2 = add_entry(d1, i, e);
    let last = dirs[i].entries.len() as int;
    assert forall|k: int, x: int, j: int| #[trigger] named_by(d2, k, x, j) <==> (named_by(dirs, k, x, j)
        || (x == i && j == last && k == n)) by {
        if 0 <= x < n && 0 <= j < dirs[x].entries.len() {
            assert(d2[x].entries[j] == dirs[x].entries[j]);
        }
        if named_by(dirs, k, x, j) {
            assert(points_after(dirs[x].entries[j], x, n));
        }
    }
    assert forall|k: int| 1 <= k < d2.len() implies #[trigger] is_named(d2, k) by {
        if k < n {
            assert(is_named(dirs, k));
            let (x, j) = choose|x: int, j: int| #[trigger] named_by(dirs, k, x, j);
            assert(named_by(d2, k, x, j));
        } else {
            assert(named_by(d2, k, i, last));
        }
    }
    assert forall|k: int, x1: int, j1: int, x2: int, j2: int|
        named_by(d2, k, x1, j1) && named_by(d2, k, x2, j2) implies x1 == x2 && j1 == j2 by {
        if named_by(dirs, k, x1, j1) {
            assert(points_after(dirs[x1].entries[j1], x1, n));
        }
        if named_by(dirs, k, x2, j2) {
            assert(points_after(dirs[x2].entries[j2], x2, n));
        }
    }
}

/// A walk step keeps every directory but the root named by exactly one
/// entry.
pub proof fn lemma_walk_step_named_once(
    rom: Seq<u8>,
    meta_start: Seq<u8>,
    alloc_start: Seq<u8>,
    w: Walk,
)
    requires
        w.stack.len() > 0,
        is_tree(w.dirs),
        frames_ok(w.stack, w.dirs.len() as int),
        named_once(w.dirs),
    ensures
        walk_step(rom, meta_start, alloc_start, w) matches Ok(w2) ==> named_once(w2.dirs),
{
    reveal(walk_step);
    let f = w.stack.last();
    assert(w.stack[w.stack.len() - 1] == f);
    let meta = f.meta;
    if meta.len() >= 1 {
        let flags = meta[0];
        let name_len = flags % 0x80;
        let meta1 = meta.skip(1);
        if name_len != 0 && meta1.len() >= name_len {
            let name = meta1.take(name_len as int);
            let meta2 = meta1.skip(name_len as int);
            if flags >= 0x80 {
                if meta2.len() >= 2 {
                    let dir_id = le16(meta2);
                    if dir_id % 0x1000 == w.dirs.len() {
                        lemma_named_once_dir(
                            w.dirs,
                            f.dir,
                            ascii_chars(name),
                            Entry::Directory(DirId::from_raw(dir_id as u16)),
                        );
                    }
                }
            } else if f.file_idx <= 0xffff {
                lemma_named_once_file(w.dirs, f.dir, Entry::File(FileId::from_raw(f.file_idx as u16)));
            }
        }
    }
}

/// Walking keeps the directories a tree, the root's name, and the overlays
/// and named files in their places.
pub proof fn lemma_walk_tree(rom: Seq<u8>, meta_start: Seq<u8>, alloc_start: Seq<u8>, w: Walk, m: int)
    requires
        is_tree(w.dirs),
        w.dirs.len() <= 0x1000,
        frames_ok(w.stack, w.dirs.len() as int),
        files_named(w.files, m),
        named_once(w.dirs),
    ensures
        walk(rom, meta_start, alloc_start, w) matches Ok(w2) ==> {
            &&& is_tree(w2.dirs)
            &&& named_once(w2.dirs)
            &&& w2.dirs.len() <= 0x1000
            &&& w2.dirs[0].name == w.dirs[0].name
            &&& files_named(w2.files, m)
        },
    decreases 0x1000 - w.dirs.len(), stack_measure(w.stack),
{
    if w.stack.len() > 0 {
        lemma_walk_step_progress(rom, meta_start, alloc_start, w);
        lemma_walk_step_tree(rom, meta_start, alloc_start, w, m);
        lemma_walk_step_frames(rom, meta_start, alloc_start, w);
        lemma_walk_step_named_once(rom, meta_start, alloc_start, w);
        if let Ok(w2) = walk_step(rom, meta_start, alloc_start, w) {
            lemma_walk_tree(rom, meta_start, alloc_start, w2, m);
        }
    }
}

/// The number of overlays of the file table whose name table starts at
/// `fnt`: the root directory's first file id.
pub open spec fn overlay_count(rom: Seq<u8>, fnt: int) -> int {
    le16(rom.skip(fnt).skip(4))
}

/// A file table that loads is a tree of directories rooted at directory 0,
/// which is named `root`; its files are the overlays, numbered by their
/// position, followed by the named files.
pub proof fn lemma_table_is_tree(rom: Seq<u8>, fnt: int, fat: int)
    ensures
        table_of(rom, fnt, fat) matches Ok(t) ==> {
            &&& is_tree(t.directories)
            &&& named_once(t.directories)
            &&& t.directories.len() <= 0x1000
            &&& t.directories[0].name == root_name()
            &&& files_named(t.files, overlay_count(rom, fnt))
        },
{
    if fnt <= rom.len() {
        let meta_start = rom.skip(fnt);
        if meta_start.len() >= 8 && fat <= rom.len() {
            let root_offset = le32(meta_start);
            let root_file_id = le16(meta_start.skip(4));
            let alloc_start = rom.skip(fat);
            lemma_overlay_files_named(rom, alloc_start, root_file_id as nat);
            if let Ok(files) = overlay_files(rom, alloc_start, root_file_id as nat) {
                let w0 = Walk {
                    dirs: seq![DirSpec { name: root_name(), entries: seq![] }],
                    files,
                    stack: seq![
                        Frame {
                            dir: 0,
                            meta: meta_start.skip(root_offset),
                            file_idx: root_file_id,
                        },
                    ],
                    entries: meta_start.skip(8),
                };
                assert(named_once(w0.dirs));
                lemma_walk_tree(rom, meta_start, alloc_start, w0, root_file_id);
            }
        }
    }
}

/// The entries that the name list at `meta` lists, its files numbered from
/// `file_idx` on: one for each record before the first of length zero.
pub open spec fn list_entries(meta: Seq<u8>, file_idx: int) -> Seq<Entry>
    decreases meta.len(),
{
    if meta.len() < 1 {
        seq![]
    } else {
        let flags = meta[0];
        let name_len = flags % 0x80;
        let meta1 = meta.skip(1);
        if name_len == 0 || meta1.len() < name_len {
            seq![]
        } else {
            let meta2 = meta1.skip(name_len as int);
            if flags >= 0x80 {
                if meta2.len() < 2 {
                    seq![]
                } else {
                    seq![Entry::Directory(DirId::from_raw(le16(meta2) as u16))] + list_entries(
                        meta2.skip(2),
                        file_idx,
                    )
                }
            } else {
                seq![Entry::File(FileId::from_raw(file_idx as u16))] + list_entries(
                    meta2,
                    file_idx + 1,
                )
            }
        }
    }
}

/// The entries of directory `x` of the name table `names`: those of the
/// name list that its record (the `x`-th of eight bytes) points to, its
/// files numbered from the record's first file id on.
pub open spec fn dir_list(names: Seq<u8>, x: int) -> Seq<Entry> {
    let record = names.skip(8 * x);
    list_entries(names.skip(le32(record)), le16(record.skip(4)))
}

/// The entries still to come of directory `x`: those of its name list on
/// the stack, from the cursor on, or none.
pub open spec fn pending(stack: Seq<Frame>, x: int) -> Seq<Entry>
    decreases stack.len(),
{
    if stack.len() == 0 {
        seq![]
    } else if stack.last().dir == x {
        list_entries(stack.last().meta, stack.last().file_idx)
    } else {
        pending(stack.drop_last(), x)
    }
}

/// Whether the walk of the name table `names` has found, for each
/// directory, the entries of its name list up to the cursor of that list
/// on the stack, and stands at the record of the next directory.
pub open spec fn lists_walked(names: Seq<u8>, w: Walk) -> bool {
    &&& 8 * w.dirs.len() <= names.len()
    &&& w.entries == names.skip(8 * (w.dirs.len() as int))
    &&& forall|i: int, j: int|
        0 <= i < j < w.stack.len() ==> #[trigger] w.stack[i].dir < #[trigger] w.stack[j].dir
    &&& forall|x: int|
        0 <= x < w.dirs.len() ==> #[trigger] dir_list(names, x) == w.dirs[x].entries + pending(
            w.stack,
            x,
        )
}

/// A directory with no name list on the stack has no entries to come.
proof fn lemma_pending_none(stack: Seq<Frame>, x: int)
    requires
        forall|i: int| 0 <= i < stack.len() ==> #[trigger] stack[i].dir != x,
    ensures
        pending(stack, x) == Seq::<Entry>::empty(),
    decreases stack.len(),
{
    if stack.len() > 0 {
        assert(stack[stack.len() - 1].dir != x);
        let rest = stack.drop_last();
        assert forall|i: int| 0 <= i < rest.len() implies #[trigger] rest[i].dir != x by {
            assert(rest[i] == stack[i]);
        }
        lemma_pending_none(rest, x);
    }
}

/// A walk step keeps the entries found for each directory equal to those
/// of its name list up to the cursor in it.
#[verifier::spinoff_prover]
#[verifier::rlimit(40)]
pub proof fn lemma_walk_step_lists(rom: Seq<u8>, names: Seq<u8>, alloc_start: Seq<u8>, w: Walk)
    requires
        w.stack.len() > 0,
        frames_ok(w.stack, w.dirs.len() as int),
        lists_walked(names, w),
    ensures
        walk_step(rom, names, alloc_start, w) matches Ok(w2) ==> lists_walked(names, w2),
{
    reveal(walk_step);
    let f = w.stack.last();
    let d = f.dir;
    let n = w.dirs.len() as int;
    let rest = w.stack.drop_last();
    assert(w.stack[w.stack.len() - 1] == f);
    assert(0 <= d < n);
    assert forall|i: int| 0 <= i < rest.len() implies #[trigger] rest[i].dir < d by {
        assert(rest[i] == w.stack[i]);
        assert(w.stack[i].dir < w.stack[w.stack.len() - 1].dir);
    }
    assert forall|i: int| 0 <= i < rest.len() implies #[trigger] rest[i].dir != d by {
        assert(rest[i].dir < d);
    }
    lemma_pending_none(rest, d);
    assert(pending(w.stack, d) == list_entries(f.meta, f.file_idx));
    assert forall|x: int| x != d implies #[trigger] pending(w.stack, x) == pending(rest, x) by {}
    if let Ok(w2) = walk_step(rom, names, alloc_start, w) {
        let meta = f.meta;
        let flags = meta[0];
        let name_len = flags % 0x80;
        let meta1 = meta.skip(1);
        if name_len == 0 {
            assert(list_entries(meta, f.file_idx) == Seq::<Entry>::empty());
            assert forall|x: int| 0 <= x < w2.dirs.len() implies #[trigger] dir_list(names, x)
                == w2.dirs[x].entries + pending(w2.stack, x) by {
                assert(w.dirs[x].entries + Seq::<Entry>::empty() =~= w.dirs[x].entries);
            }
            assert forall|i: int, j: int| 0 <= i < j < w2.stack.len() implies #[trigger] w2.stack[i].dir
                < #[trigger] w2.stack[j].dir by {
                assert(w2.stack[i] == w.stack[i]);
                assert(w2.stack[j] == w.stack[j]);
            }
        } else {
            let meta2 = meta1.skip(name_len as int);
            if flags >= 0x80 {
                let e = w.entries;
                let dir_id = le16(meta2);
                let entry = Entry::Directory(DirId::from_raw(dir_id as u16));
                let f2 = Frame { meta: meta2.skip(2), ..f };
                let g = w2.stack.last();
                assert(g.dir == n);
                assert(list_entries(meta, f.file_idx) == seq![entry] + list_entries(
                    meta2.skip(2),
                    f.file_idx,
                ));
                let s1 = rest.push(f2);
                assert(w2.stack.drop_last() == s1);
                assert(s1.drop_last() =~= rest);
                assert(s1.last() == f2);
                crate::bytes::lemma_skip_skip(names, 8 * n, 8);
                assert(w2.entries == names.skip(8 * (w2.dirs.len() as int)));
                assert forall|x: int| 0 <= x < w2.dirs.len() implies #[trigger] dir_list(names, x)
                    == w2.dirs[x].entries + pending(w2.stack, x) by {
                    if x == n {
                        assert(pending(w2.stack, x) == list_entries(g.meta, g.file_idx));
                        assert(w2.dirs[x].entries =~= Seq::<Entry>::empty());
                        assert(Seq::<Entry>::empty() + list_entries(g.meta, g.file_idx)
                            =~= list_entries(g.meta, g.file_idx));
                    } else if x == d {
                        assert(pending(w2.stack, x) == pending(s1, x));
                        assert(pending(s1, x) == list_entries(meta2.skip(2), f.file_idx));
                        assert(w2.dirs[x].entries == w.dirs[x].entries.push(entry));
                        assert(w.dirs[x].entries + (seq![entry] + list_entries(meta2.skip(2), f.file_idx))
                            =~= w.dirs[x].entries.push(entry) + list_entries(meta2.skip(2), f.file_idx));
                    } else {
                        assert(pending(w2.stack, x) == pending(s1, x));
                        assert(pending(s1, x) == pending(rest, x));
                        assert(w2.dirs[x] == w.dirs[x]);
                    }
                }
                assert forall|i: int, j: int| 0 <= i < j < w2.stack.len() implies #[trigger] w2.stack[i].dir
                    < #[trigger] w2.stack[j].dir by {
                    if i < rest.len() {
                        assert(w2.stack[i] == rest[i]);
                        assert(rest[i].dir < d);
                    } else {
                        assert(w2.stack[i] == f2);
                    }
                    if j < rest.len() {
                        assert(w2.stack[j] == rest[j]);
                        assert(rest[i] == w.stack[i]);
                        assert(rest[j] == w.stack[j]);
                    } else if j == rest.len() {
                        assert(w2.stack[j] == f2);
                    } else {
                        assert(w2.stack[j] == g);
                    }
                }
            } else {
                let entry = Entry::File(FileId::from_raw(f.file_idx as u16));
                let f2 = Frame { meta: meta2, file_idx: f.file_idx + 1, ..f };
                assert(list_entries(meta, f.file_idx) == seq![entry] + list_entries(
                    meta2,
                    f.file_idx + 1,
                ));
                assert(w2.stack.drop_last() =~= rest);
                assert(w2.stack.last() == f2);
                assert forall|x: int| 0 <= x < w2.dirs.len() implies #[trigger] dir_list(names, x)
                    == w2.dirs[x].entries + pending(w2.stack, x) by {
                    if x == d {
                        assert(pending(w2.stack, x) == list_entries(meta2, f.file_idx + 1));
                        assert(w2.dirs[x].entries == w.dirs[x].entries.push(entry));
                        assert(w.dirs[x].entries + (seq![entry] + list_entries(meta2, f.file_idx + 1))
                            =~= w.dirs[x].entries.push(entry) + list_entries(meta2, f.file_idx + 1));
                    } else {
                        assert(pending(w2.stack, x) == pending(rest, x));
                        assert(w2.dirs[x] == w.dirs[x]);
                    }
                }
                assert forall|i: int, j: int| 0 <= i < j < w2.stack.len() implies #[trigger] w2.stack[i].dir
                    < #[trigger] w2.stack[j].dir by {
                    if j < rest.len() {
                        assert(w2.stack[i] == w.stack[i]);
                        assert(w2.stack[j] == w.stack[j]);
                    } else {
                        assert(w2.stack[i] == w.stack[i]);
                        assert(w2.stack[j] == f2);
                        assert(w.stack[i].dir < w.stack[w.stack.len() - 1].dir);
                    }
                }
            }
        }
    }
}

/// Walking to the end finds every directory's entries: those its name
/// list lists.
pub proof fn lemma_walk_lists(rom: Seq<u8>, names: Seq<u8>, alloc_start: Seq<u8>, w: Walk)
    requires
        w.dirs.len() <= 0x1000,
        frames_ok(w.stack, w.dirs.len() as int),
        lists_walked(names, w),
    ensures
        walk(rom, names, alloc_start, w) matches Ok(w2) ==> forall|x: int|
            0 <= x < w2.dirs.len() ==> #[trigger] w2.dirs[x].entries == dir_list(names, x),
    decreases 0x1000 - w.dirs.len(), stack_measure(w.stack),
{
    if w.stack.len() > 0 {
        lemma_walk_step_progress(rom, names, alloc_start, w);
        lemma_walk_step_frames(rom, names, alloc_start, w);
        lemma_walk_step_lists(rom, names, alloc_start, w);
        if let Ok(w2) = walk_step(rom, names, alloc_start, w) {
            lemma_walk_lists(rom, names, alloc_start, w2);
        }
    } else {
        assert forall|x: int| 0 <= x < w.dirs.len() implies #[trigger] w.dirs[x].entries
            == dir_list(names, x) by {
            assert(pending(w.stack, x) == Seq::<Entry>::empty());
            assert(w.dirs[x].entries + Seq::<Entry>::empty() =~= w.dirs[x].entries);
        }
    }
}

/// In a file table that loads, the entries of each directory are those of
/// the name list that its record in the name table points to, in order:
/// a directory record names the directory its id gives, and the files are
/// numbered on from the record's first file id.
pub proof fn lemma_table_lists(rom: Seq<u8>, fnt: int, fat: int)
    ensures
        table_of(rom, fnt, fat) matches Ok(t) ==> forall|x: int|
            0 <= x < t.directories.len() ==> #[trigger] t.directories[x].entries == dir_list(
                rom.skip(fnt),
                x,
            ),
{
    if fnt <= rom.len() {
        let names = rom.skip(fnt);
        if names.len() >= 8 && fat <= rom.len() {
            let root_offset = le32(names);
            let root_file_id = le16(names.skip(4));
            let alloc_start = rom.skip(fat);
            if let Ok(files) = overlay_files(rom, alloc_start, root_file_id as nat) {
                let w0 = Walk {
                    dirs: seq![DirSpec { name: root_name(), entries: seq![] }],
                    files,
                    stack: seq![
                        Frame {
                            dir: 0,
                            meta: names.skip(root_offset),
                            file_idx: root_file_id,
                        },
                    ],
                    entries: names.skip(8),
                };
                assert(names.skip(0) =~= names);
                assert(pending(w0.stack, 0) == list_entries(names.skip(root_offset), root_file_id));
                assert(Seq::<Entry>::empty() + list_entries(names.skip(root_offset), root_file_id)
                    =~= list_entries(names.skip(root_offset), root_file_id));
                assert(lists_walked(names, w0));
                lemma_walk_lists(rom, names, alloc_start, w0);
            }
        }
    }
}

/// The start address in allocation entry `k` of the table at `alloc`.
pub open spec fn alloc_start_addr(alloc: Seq<u8>, k: int) -> int {
    le32(alloc.skip(8 * k))
}

/// The end address in allocation entry `k` of the table at `alloc`.
pub open spec fn alloc_end_addr(alloc: Seq<u8>, k: int) -> int {
    le32(alloc.skip(8 * k + 4))
}

/// The `n` overlays that load are files 0 to `n - 1`; overlay `k` holds
/// the ROM bytes between the start and end addresses of allocation entry
/// `k` (the eight bytes `8 * k` into `alloc`), which lie past the secure
/// area and inside the ROM.
pub proof fn lemma_overlay_files_data(rom: Seq<u8>, alloc: Seq<u8>, n: nat)
    ensures
        overlay_files(rom, alloc, n) matches Ok(fs) ==> {
            &&& fs.len() == n
            &&& forall|k: int|
                #![trigger fs[k]]
                0 <= k < n ==> {
                    &&& 8 * k + 8 <= alloc.len()
                    &&& 0x8000 <= alloc_start_addr(alloc, k)
                    &&& alloc_start_addr(alloc, k) <= alloc_end_addr(alloc, k)
                    &&& alloc_end_addr(alloc, k) <= rom.len()
                    &&& fs[k].data == rom.subrange(
                        alloc_start_addr(alloc, k),
                        alloc_end_addr(alloc, k),
                    )
                    &&& fs[k].name == NameSpec::Overlay(k as nat)
                }
        },
    decreases n,
{
    if n > 0 {
        lemma_overlay_files_data(rom, alloc, (n - 1) as nat);
        if let Ok(fs) = overlay_files(rom, alloc, n) {
            let prev = overlay_files(rom, alloc, (n - 1) as nat)->Ok_0;
            let last = n - 1;
            if last > 0 {
                assert(prev[last - 1].data == fs[last - 1].data);
            }
            assert(8 * last <= alloc.len());
            let a = alloc.skip(8 * last);
            assert(a.len() >= 8);
            crate::bytes::lemma_skip_skip(alloc, 8 * last, 4);
            assert forall|k: int| #![trigger fs[k]] 0 <= k < n implies {
                &&& 8 * k + 8 <= alloc.len()
                &&& 0x8000 <= alloc_start_addr(alloc, k)
                &&& alloc_start_addr(alloc, k) <= alloc_end_addr(alloc, k)
                &&& alloc_end_addr(alloc, k) <= rom.len()
                &&& fs[k].data == rom.subrange(
                    alloc_start_addr(alloc, k),
                    alloc_end_addr(alloc, k),
                )
                &&& fs[k].name == NameSpec::Overlay(k as nat)
            } by {
                if k < last {
                    assert(fs[k] == prev[k]);
                    assert(prev[k].data == fs[k].data);
                } else {
                    assert(a.skip(4) == alloc.skip(8 * k + 4));
                    assert(file_data(rom, a) is Ok);
                }
            }
        }
    }
}

/// Walking keeps the files found so far, in their places, and only adds
/// files after them.
pub proof fn lemma_walk_files_prefix(rom: Seq<u8>, names: Seq<u8>, alloc_start: Seq<u8>, w: Walk)
    requires
        w.dirs.len() <= 0x1000,
    ensures
        walk(rom, names, alloc_start, w) matches Ok(w2) ==> {
            &&& w.files.len() <= w2.files.len()
            &&& forall|k: int| 0 <= k < w.files.len() ==> #[trigger] w2.files[k] == w.files[k]
        },
    decreases 0x1000 - w.dirs.len(), stack_measure(w.stack),
{
    if w.stack.len() > 0 {
        lemma_walk_step_progress(rom, names, alloc_start, w);
        if let Ok(w2) = walk_step(rom, names, alloc_start, w) {
            assert(w.files.len() <= w2.files.len() && forall|k: int|
                0 <= k < w.files.len() ==> #[trigger] w2.files[k] == w.files[k]) by {
                reveal(walk_step);
            }
            lemma_walk_files_prefix(rom, names, alloc_start, w2);
        }
    }
}

/// The ROM bytes between the start and end addresses of allocation entry
/// `k` of the table at `alloc`.
pub open spec fn alloc_data(rom: Seq<u8>, alloc: Seq<u8>, k: int) -> Seq<u8> {
    rom.subrange(alloc_start_addr(alloc, k), alloc_end_addr(alloc, k))
}

/// Whether some named file holds `data`.
pub open spec fn has_named_file(files: Seq<FileSpec>, data: Seq<u8>) -> bool {
    exists|m: int| 0 <= m < files.len() && files[m].name is Name && #[trigger] files[m].data == data
}

/// Whether a file entry `e` is backed by a named file that holds the ROM
/// bytes of the allocation entry its id gives; a directory entry always is.
pub open spec fn entry_from_alloc(rom: Seq<u8>, alloc: Seq<u8>, files: Seq<FileSpec>, e: Entry) -> bool {
    match e {
        Entry::File(id) => {
            &&& 8 * id.idx() + 8 <= alloc.len()
            &&& 0x8000 <= alloc_start_addr(alloc, id.idx())
            &&& alloc_start_addr(alloc, id.idx()) <= alloc_end_addr(alloc, id.idx())
            &&& alloc_end_addr(alloc, id.idx()) <= rom.len()
            &&& has_named_file(files, alloc_data(rom, alloc, id.idx()))
        },
        Entry::Directory(_) => true,
    }
}

/// Whether every file entry of the directories is backed by a named file
/// holding the ROM bytes of the allocation entry its id gives.
pub open spec fn entries_from_alloc(
    rom: Seq<u8>,
    alloc: Seq<u8>,
    dirs: Seq<DirSpec>,
    files: Seq<FileSpec>,
) -> bool {
    forall|x: int, j: int|
        0 <= x < dirs.len() && 0 <= j < dirs[x].entries.len() ==> entry_from_alloc(
            rom,
            alloc,
            files,
            #[trigger] dirs[x].entries[j],
        )
}

/// A walk step keeps every file entry backed by the named file it read.
proof fn lemma_walk_step_alloc(rom: Seq<u8>, names: Seq<u8>, alloc_start: Seq<u8>, w: Walk)
    requires
        w.stack.len() > 0,
        frames_ok(w.stack, w.dirs.len() as int),
        entries_from_alloc(rom, alloc_start, w.dirs, w.files),
    ensures
        walk_step(rom, names, alloc_start, w) matches Ok(w2) ==> entries_from_alloc(
            rom,
            alloc_start,
            w2.dirs,
            w2.files,
        ),
{
    reveal(walk_step);
    let f = w.stack.last();
    assert(w.stack[w.stack.len() - 1] == f);
    if let Ok(w2) = walk_step(rom, names, alloc_start, w) {
        if w2.files.len() == w.files.len() {
            assert forall|x: int, j: int|
                0 <= x < w2.dirs.len() && 0 <= j < w2.dirs[x].entries.len() implies entry_from_alloc(
                rom,
                alloc_start,
                w2.files,
                #[trigger] w2.dirs[x].entries[j],
            ) by {
                if x < w.dirs.len() && j < w.dirs[x].entries.len() {
                    assert(w2.dirs[x].entries[j] == w.dirs[x].entries[j]);
                }
            }
        } else {
            let fid = f.file_idx;
            let a = alloc_start.skip(fid * 8);
            let data = w2.files.last().data;
            let m = w.files.len() as int;
            assert(w2.files[m] == w2.files.last());
            assert(a.len() >= 8);
            crate::bytes::lemma_skip_skip(alloc_start, 8 * fid, 4);
            assert(a.skip(4) == alloc_start.skip(8 * fid + 4));
            assert(data == alloc_data(rom, alloc_start, fid));
            assert(has_named_file(w2.files, alloc_data(rom, alloc_start, fid)));
            assert forall|x: int, j: int|
                0 <= x < w2.dirs.len() && 0 <= j < w2.dirs[x].entries.len() implies entry_from_alloc(
                rom,
                alloc_start,
                w2.files,
                #[trigger] w2.dirs[x].entries[j],
            ) by {
                if j < w.dirs[x].entries.len() {
                    let e = w.dirs[x].entries[j];
                    assert(w2.dirs[x].entries[j] == e);
                    assert(entry_from_alloc(rom, alloc_start, w.files, e));
                    if let Entry::File(id) = e {
                        let d = alloc_data(rom, alloc_start, id.idx());
                        let k = choose|k: int|
                            0 <= k < w.files.len() && w.files[k].name is Name && #[trigger] w.files[k].data
                                == d;
                        assert(w2.files[k] == w.files[k]);
                        assert(has_named_file(w2.files, d));
                    }
                } else {
                    assert(w2.dirs[x].entries[j] == Entry::File(FileId::from_raw(fid as u16)));
                }
            }
        }
    }
}

/// Walking keeps every file entry backed by the named file it read.
proof fn lemma_walk_alloc(rom: Seq<u8>, names: Seq<u8>, alloc_start: Seq<u8>, w: Walk)
    requires
        w.dirs.len() <= 0x1000,
        frames_ok(w.stack, w.dirs.len() as int),
        entries_from_alloc(rom, alloc_start, w.dirs, w.files),
    ensures
        walk(rom, names, alloc_start, w) matches Ok(w2) ==> entries_from_alloc(
            rom,
            alloc_start,
            w2.dirs,
            w2.files,
        ),
    decreases 0x1000 - w.dirs.len(), stack_measure(w.stack),
{
    if w.stack.len() > 0 {
        lemma_walk_step_progress(rom, names, alloc_start, w);
        lemma_walk_step_frames(rom, names, alloc_start, w);
        lemma_walk_step_alloc(rom, names, alloc_start, w);
        if let Ok(w2) = walk_step(rom, names, alloc_start, w) {
            lemma_walk_alloc(rom, names, alloc_start, w2);
        }
    }
}

/// In a file table that loads, every file entry, in any directory, is
/// backed by a named file that holds the ROM bytes between the start and
/// end addresses of the allocation entry its id gives, at `fat + 8 * id`.
pub proof fn lemma_table_entries_from_alloc(rom: Seq<u8>, fnt: int, fat: int)
    requires
        0 <= fnt,
        0 <= fat,
    ensures
        table_of(rom, fnt, fat) matches Ok(t) ==> entries_from_alloc(
            rom,
            rom.skip(fat),
            t.directories,
            t.files,
        ),
{
    if fnt <= rom.len() {
        let names = rom.skip(fnt);
        if names.len() >= 8 && fat <= rom.len() {
            let root_offset = le32(names);
            let root_file_id = le16(names.skip(4));
            let alloc_start = rom.skip(fat);
            if let Ok(files) = overlay_files(rom, alloc_start, root_file_id as nat) {
                let w0 = Walk {
                    dirs: seq![DirSpec { name: root_name(), entries: seq![] }],
                    files,
                    stack: seq![
                        Frame {
                            dir: 0,
                            meta: names.skip(root_offset),
                            file_idx: root_file_id,
                        },
                    ],
                    entries: names.skip(8),
                };
                assert(frames_ok(w0.stack, 1));
                lemma_walk_alloc(rom, names, alloc_start, w0);
            }
        }
    }
}

/// In a file table that loads, the first files are the overlays, as many
/// as the root's first file id: overlay `k` holds the ROM bytes between
/// the start and end addresses of allocation entry `k`, at `fat + 8 * k`.
pub proof fn lemma_table_overlays(rom: Seq<u8>, fnt: int, fat: int)
    requires
        0 <= fnt,
        0 <= fat,
    ensures
        table_of(rom, fnt, fat) matches Ok(t) ==> {
            &&& overlay_count(rom, fnt) <= t.files.len()
            &&& forall|k: int|
                #![trigger t.files[k]]
                0 <= k < overlay_count(rom, fnt) ==> {
                    &&& 0x8000 <= alloc_start_addr(rom.skip(fat), k)
                    &&& alloc_start_addr(rom.skip(fat), k) <= alloc_end_addr(rom.skip(fat), k)
                    &&& alloc_end_addr(rom.skip(fat), k) <= rom.len()
                    &&& alloc_start_addr(rom.skip(fat), k) == le32(rom.skip(fat + 8 * k))
                    &&& alloc_end_addr(rom.skip(fat), k) == le32(rom.skip(fat + 8 * k + 4))
                    &&& t.files[k].data == rom.subrange(
                        alloc_start_addr(rom.skip(fat), k),
                        alloc_end_addr(rom.skip(fat), k),
                    )
                    &&& t.files[k].name == NameSpec::Overlay(k as nat)
                }
        },
{
    if fnt <= rom.len() {
        let names = rom.skip(fnt);
        if names.len() >= 8 && fat <= rom.len() {
            let root_offset = le32(names);
            let root_file_id = le16(names.skip(4));
            let alloc_start = rom.skip(fat);
            lemma_overlay_files_data(rom, alloc_start, root_file_id as nat);
            if let Ok(files) = overlay_files(rom, alloc_start, root_file_id as nat) {
                let w0 = Walk {
                    dirs: seq![DirSpec { name: root_name(), entries: seq![] }],
                    files,
                    stack: seq![
                        Frame {
                            dir: 0,
                            meta: names.skip(root_offset),
                            file_idx: root_file_id,
                        },
                    ],
                    entries: names.skip(8),
                };
                lemma_walk_files_prefix(rom, names, alloc_start, w0);
                if let Ok(t) = table_of(rom, fnt, fat) {
                    assert forall|k: int| #![trigger t.files[k]] 0 <= k < overlay_count(rom, fnt) implies {
                        &&& 0x8000 <= alloc_start_addr(rom.skip(fat), k)
                        &&& alloc_start_addr(rom.skip(fat), k) <= alloc_end_addr(rom.skip(fat), k)
                        &&& alloc_end_addr(rom.skip(fat), k) <= rom.len()
                        &&& alloc_start_addr(rom.skip(fat), k) == le32(rom.skip(fat + 8 * k))
                        &&& alloc_end_addr(rom.skip(fat), k) == le32(rom.skip(fat + 8 * k + 4))
                        &&& t.files[k].data == rom.subrange(
                            alloc_start_addr(rom.skip(fat), k),
                            alloc_end_addr(rom.skip(fat), k),
                        )
                        &&& t.files[k].name == NameSpec::Overlay(k as nat)
                    } by {
                        assert(t.files[k] == files[k]);
                        assert(files[k].data == t.files[k].data);
                        crate::bytes::lemma_skip_skip(rom, fat, 8 * k);
                        crate::bytes::lemma_skip_skip(rom, fat, 8 * k + 4);
                    }
                }
            }
        }
    }
}

// ---------------------------------------------------------------------
// Loading.

/// What the directories stand for.
pub open spec fn dirs_view(d: Seq<Directory>) -> Seq<DirSpec> {
    d.map_values(|x: Directory| x@)
}

/// What the files stand for.
pub open spec fn files_view(f: Seq<File>) -> Seq<FileSpec> {
    f.map_values(|x: File| x@)
}

/// What the name lists of a walk stack stand for.
pub open spec fn frames_of<'a>(s: Seq<(usize, &'a [u8], usize)>) -> Seq<Frame> {
    s.map_values(|t: (usize, &'a [u8], usize)| Frame { dir: t.0 as int, meta: t.1@, file_idx: t.2 as int })
}

/// What a walk in progress stands for.
pub open spec fn walk_of<'a>(
    directories: Seq<Directory>,
    files: Seq<File>,
    stack: Seq<(usize, &'a [u8], usize)>,
    entries: Seq<u8>,
) -> Walk {
    Walk {
        dirs: dirs_view(directories),
        files: files_view(files),
        stack: frames_of(stack),
        entries,
    }
}

/// Reads the allocation entry that the cursor stands at, and gives the
/// data of that file.
fn read_file_data(rom: &[u8], alloc: &mut &[u8]) -> (r: Result<Vec<u8>, LoadError>)
    ensures
        match file_data(rom@, old(alloc)@) {
            Ok(d) => r matches Ok(v) && v@ == d && final(alloc)@ == old(alloc)@.skip(8),
            Err(e) => r == Err::<Vec<u8>, LoadError>(e),
        },
        old(alloc)@.len() >= 8 ==> final(alloc)@ == old(alloc)@.skip(8),
{
    let ghost a0 = alloc@;
    let data_start = match read_u32_le(alloc) {
        Some(v) => v as usize,
        None => return Err(LoadError::UnexpectedEof),
    };
    let data_end = match read_u32_le(alloc) {
        Some(v) => v as usize,
        None => return Err(LoadError::UnexpectedEof),
    };
    proof {
        crate::bytes::lemma_skip_skip(a0, 4, 4);
    }
    if data_start < 0x8000 || data_start > data_end || data_end > rom.len() {
        return Err(LoadError::InvalidFileDataAddress);
    }
    Ok(vstd::slice::slice_to_vec(vstd::slice::slice_subrange(rom, data_start, data_end)))
}

/// Walks one entry of the name list on top of the stack.
fn walk_entry<'a>(
    rom: &[u8],
    meta_start: &'a [u8],
    alloc_start: &[u8],
    directories: &mut Vec<Directory>,
    files: &mut Vec<File>,
    dir_stack: &mut Vec<(usize, &'a [u8], usize)>,
    meta_entries: &mut &[u8],
) -> (r: Result<(), LoadError>)
    requires
        old(dir_stack)@.len() > 0,
        old(directories)@.len() <= 0x1000,
        frames_ok(frames_of(old(dir_stack)@), old(directories)@.len() as int),
    ensures
        match walk_step(
            rom@,
            meta_start@,
            alloc_start@,
            walk_of(old(directories)@, old(files)@, old(dir_stack)@, old(meta_entries)@),
        ) {
            Ok(w2) => r is Ok && walk_of(
                final(directories)@,
                final(files)@,
                final(dir_stack)@,
                final(meta_entries)@,
            ) == w2,
            Err(e) => r == Err::<(), LoadError>(e),
        },
        r is Ok ==> final(directories)@.len() <= 0x1000 && frames_ok(
            frames_of(final(dir_stack)@),
            final(directories)@.len() as int,
        ),
{
    reveal(walk_step);
    let ghost w = walk_of(directories@, files@, dir_stack@, meta_entries@);
    proof {
        lemma_walk_step_frames(rom@, meta_start@, alloc_start@, w);
    }
    let (i, mut meta, mut file_idx) = dir_stack.pop().unwrap();
    assert(frames_of(dir_stack@) =~= w.stack.drop_last());
    assert(w.stack.last() == Frame { dir: i as int, meta: meta@, file_idx: file_idx as int });

    let flags = match read_u8(&mut meta) {
        Some(v) => v,
        None => return Err(LoadError::UnexpectedEof),
    };
    assert(flags & !0x80u8 == flags % 0x80 && ((flags & 0x80u8 != 0) == (flags >= 0x80)))
        by (bit_vector);
    let name_len = (flags & !0x80) as usize;
    if name_len == 0 {
        return Ok(());
    }
    let name = match read_bytes(&mut meta, name_len) {
        Some(v) => v,
        None => return Err(LoadError::UnexpectedEof),
    };
    let is_dot = (name.len() == 1 && name[0] == 0x2e) || (name.len() == 2 && name[0] == 0x2e
        && name[1] == 0x2e);
    assert(is_dot == is_dot_name(name@)) by {
        if name@.len() == 1 && name@[0] == 0x2e {
            assert(name@ =~= seq![0x2eu8]);
        }
        if name@.len() == 2 && name@[0] == 0x2e && name@[1] == 0x2e {
            assert(name@ =~= seq![0x2eu8, 0x2eu8]);
        }
    }
    let ghost name_bytes = name@;
    let name = match ascii_string(name) {
        Some(s) => s,
        None => return Err(LoadError::NameNotAscii),
    };
    if is_dot {
        return Err(LoadError::DotName);
    }

    if flags & 0x80 != 0 {
        let ghost e0 = meta_entries@;
        let offset = match read_u32_le(meta_entries) {
            Some(v) => v,
            None => return Err(LoadError::UnexpectedEof),
        };
        let first_file_id = match read_u16_le(meta_entries) {
            Some(v) => FileId(v),
            None => return Err(LoadError::UnexpectedEof),
        };
        let parent_id = match read_u16_le(meta_entries) {
            Some(v) => DirId(v),
            None => return Err(LoadError::UnexpectedEof),
        };
        proof {
            crate::bytes::lemma_skip_skip(e0, 4, 2);
            crate::bytes::lemma_skip_skip(e0, 6, 2);
        }
        if parent_id.as_idx() >= directories.len() {
            return Err(LoadError::InvalidParentId);
        }
        let dir_id = match read_u16_le(&mut meta) {
            Some(v) => DirId(v),
            None => return Err(LoadError::UnexpectedEof),
        };
        if dir_id.as_idx() != directories.len() {
            return Err(LoadError::NonsequentialDirId);
        }
        let next_dir = Directory { name, entries: Vec::new() };
        directories.push(next_dir);

        let next_i = dir_id.as_idx();
        let mut next_meta = meta_start;
        if !skip_bytes(&mut next_meta, offset as usize) {
            return Err(LoadError::OutOfBounds);
        }
        let ghost pushed = directories@;
        directories[i].entries.push(Entry::Directory(dir_id));
        assert(dirs_view(directories@) =~= add_entry(
            w.dirs.push(DirSpec { name: ascii_chars(name_bytes), entries: seq![] }),
            i as int,
            Entry::Directory(DirId::from_raw(dir_id.0)),
        )) by {
            assert(dirs_view(pushed) =~= w.dirs.push(
                DirSpec { name: ascii_chars(name_bytes), entries: seq![] },
            ));
        }
        dir_stack.push((i, meta, file_idx));
        dir_stack.push((next_i, next_meta, first_file_id.as_idx()));
        assert(frames_of(dir_stack@) =~= w.stack.drop_last().push(
            Frame { meta: meta@, ..w.stack.last() },
        ).push(Frame { dir: next_i as int, meta: next_meta@, file_idx: first_file_id.0 as int }));
        Ok(())
    } else {
        let mut alloc = alloc_start;
        if !skip_bytes(&mut alloc, file_idx * 8) {
            return Err(LoadError::OutOfBounds);
        }
        let data = read_file_data(rom, &mut alloc)?;
        if file_idx > 0xffff {
            return Err(LoadError::FileIdOverflow);
        }
        let id = FileId(file_idx as u16);
        file_idx += 1;

        let ghost data_view = data@;
        files.push(File { name: FileName::Name(name), data });
        assert(files_view(files@) =~= w.files.push(
            FileSpec { name: NameSpec::Name(ascii_chars(name_bytes)), data: data_view },
        ));
        directories[i].entries.push(Entry::File(id));
        assert(dirs_view(directories@) =~= add_entry(w.dirs, i as int, Entry::File(id)));
        dir_stack.push((i, meta, file_idx));
        assert(frames_of(dir_stack@) =~= w.stack.drop_last().push(
            Frame { meta: meta@, file_idx: file_idx as int, ..w.stack.last() },
        ));
        Ok(())
    }
}


impl FileTable {
    /// The directories form a tree rooted at directory 0.
    #[verifier::type_invariant]
    spec fn is_well_formed(self) -> bool {
        is_tree(self@.directories)
    }

    /// Loads the file table of `rom`, whose name and allocation tables
    /// `header` locates.
    ///
    /// Offsets past the end of the data they are taken in give
    /// [`LoadError::OutOfBounds`], and a file index past `0xffff`
    /// [`LoadError::FileIdOverflow`].
    pub fn load(rom: &[u8], header: &NdsHeader) -> (r: Result<FileTable, LoadError>)
        ensures
            match table_of(rom@, header.file_table_offset as int, header.file_alloc_offset as int) {
                Ok(t) => r matches Ok(ft) && ft@ == t,
                Err(e) => r == Err::<FileTable, LoadError>(e),
            },
            r matches Ok(ft) ==> {
                &&& is_tree(ft@.directories)
                &&& named_once(ft@.directories)
                &&& ft@.directories.len() <= 0x1000
                &&& ft@.directories[0].name == root_name()
                &&& files_named(
                    ft@.files,
                    overlay_count(rom@, header.file_table_offset as int),
                )
                &&& forall|x: int|
                    0 <= x < ft@.directories.len() ==> #[trigger] ft@.directories[x].entries
                        == dir_list(rom@.skip(header.file_table_offset as int), x)
                &&& entries_from_alloc(
                    rom@,
                    rom@.skip(header.file_alloc_offset as int),
                    ft@.directories,
                    ft@.files,
                )
                &&& overlay_count(rom@, header.file_table_offset as int) <= ft@.files.len()
                &&& forall|k: int|
                    #![trigger ft@.files[k]]
                    0 <= k < overlay_count(rom@, header.file_table_offset as int) ==> {
                        &&& ft@.files[k].name == NameSpec::Overlay(k as nat)
                        &&& ft@.files[k].data == rom@.subrange(
                            le32(rom@.skip(header.file_alloc_offset + 8 * k)),
                            le32(rom@.skip(header.file_alloc_offset + 8 * k + 4)),
                        )
                    }
            },
    {
        let ghost fnt = header.file_table_offset as int;
        let ghost fat = header.file_alloc_offset as int;
        proof {
            lemma_table_is_tree(rom@, fnt, fat);
            lemma_table_lists(rom@, fnt, fat);
            lemma_table_overlays(rom@, fnt, fat);
            lemma_table_entries_from_alloc(rom@, fnt, fat);
        }
        let mut meta_start = rom;
        if !skip_bytes(&mut meta_start, header.file_table_offset as usize) {
            return Err(LoadError::OutOfBounds);
        }
        let mut meta_entries = meta_start;
        let root_offset = match read_u32_le(&mut meta_entries) {
            Some(v) => v,
            None => return Err(LoadError::UnexpectedEof),
        };
        let root_file_id = match read_u16_le(&mut meta_entries) {
            Some(v) => FileId(v),
            None => return Err(LoadError::UnexpectedEof),
        };
        let total_dir_count = match read_u16_le(&mut meta_entries) {
            Some(v) => v as usize,
            None => return Err(LoadError::UnexpectedEof),
        };
        proof {
            crate::bytes::lemma_skip_skip(meta_start@, 4, 2);
            crate::bytes::lemma_skip_skip(meta_start@, 6, 2);
        }
        // Directory ids are in range 0xF000..=0xFFFF
        if total_dir_count > 0x1000 {
            return Err(LoadError::InvalidTotalDirCount);
        }

        let mut alloc_start = rom;
        if !skip_bytes(&mut alloc_start, header.file_alloc_offset as usize) {
            return Err(LoadError::OutOfBounds);
        }

        let mut overlay_alloc = alloc_start;
        let overlay_count = root_file_id.as_idx();
        let mut files: Vec<File> = Vec::new();
        let mut k: usize = 0;
        assert(files_view(files@) =~= Seq::<FileSpec>::empty());
        while k < overlay_count
            invariant
                fnt == header.file_table_offset as int,
                fat == header.file_alloc_offset as int,
                fnt <= rom@.len(),
                fat <= rom@.len(),
                meta_start@ == rom@.skip(fnt),
                alloc_start@ == rom@.skip(fat),
                meta_start@.len() >= 8,
                le16(meta_start@.skip(6)) <= 0x1000,
                k <= overlay_count,
                overlay_count == le16(meta_start@.skip(4)),
                8 * k <= alloc_start@.len(),
                overlay_alloc@ == alloc_start@.skip(8 * k),
                overlay_files(rom@, alloc_start@, k as nat) == Ok::<Seq<FileSpec>, LoadError>(
                    files_view(files@),
                ),
            decreases overlay_count - k,
        {
            let ghost before = files_view(files@);
            let data = match read_file_data(rom, &mut overlay_alloc) {
                Ok(d) => d,
                Err(e) => {
                    proof {
                        lemma_overlay_files_err(
                            rom@,
                            alloc_start@,
                            (k + 1) as nat,
                            overlay_count as nat,
                        );
                    }
                    return Err(e);
                },
            };
            proof {
                crate::bytes::lemma_skip_skip(alloc_start@, 8 * k, 8);
            }
            let ghost data_view = data@;
            files.push(File { name: FileName::Overlay(k), data });
            assert(files_view(files@) =~= before.push(
                FileSpec { name: NameSpec::Overlay(k as nat), data: data_view },
            ));
            k += 1;
        }

        let root_name_bytes: Vec<u8> = vec![0x72, 0x6f, 0x6f, 0x74];
        assert(all_ascii(root_name_bytes@));
        let root_name_string = ascii_string(root_name_bytes).unwrap();
        assert(root_name_string@ =~= root_name());
        let root = Directory { name: root_name_string, entries: Vec::new() };

        let mut directories: Vec<Directory> = Vec::with_capacity(total_dir_count);
        directories.push(root);

        let mut root_meta = meta_start;
        if !skip_bytes(&mut root_meta, root_offset as usize) {
            return Err(LoadError::OutOfBounds);
        }
        let mut dir_stack: Vec<(usize, &[u8], usize)> = Vec::new();
        dir_stack.push((0, root_meta, root_file_id.as_idx()));

        let ghost w0 = walk_of(directories@, files@, dir_stack@, meta_entries@);
        assert(w0 == Walk {
            dirs: seq![DirSpec { name: root_name(), entries: seq![] }],
            files: files_view(files@),
            stack: seq![
                Frame {
                    dir: 0,
                    meta: meta_start@.skip(root_offset as int),
                    file_idx: overlay_count as int,
                },
            ],
            entries: meta_start@.skip(8),
        }) by {
            assert(dirs_view(directories@) =~= seq![DirSpec { name: root_name(), entries: seq![] }]);
            assert(frames_of(dir_stack@) =~= seq![
                Frame {
                    dir: 0,
                    meta: meta_start@.skip(root_offset as int),
                    file_idx: overlay_count as int,
                },
            ]);
        }
        let ghost target = walk(rom@, meta_start@, alloc_start@, w0);

        loop
            invariant
                fnt == header.file_table_offset as int,
                fat == header.file_alloc_offset as int,
                directories@.len() <= 0x1000,
                frames_ok(frames_of(dir_stack@), directories@.len() as int),
                walk(
                    rom@,
                    meta_start@,
                    alloc_start@,
                    walk_of(directories@, files@, dir_stack@, meta_entries@),
                ) == target,
                table_of(rom@, fnt, fat) == match target {
                    Ok(w) => Ok(TableSpec { directories: w.dirs, files: w.files }),
                    Err(e) => Err(e),
                },
                table_of(rom@, fnt, fat) matches Ok(t) ==> is_tree(t.directories),
            ensures
                dir_stack@.len() == 0,
                walk(
                    rom@,
                    meta_start@,
                    alloc_start@,
                    walk_of(directories@, files@, dir_stack@, meta_entries@),
                ) == target,
                table_of(rom@, fnt, fat) == match target {
                    Ok(w) => Ok(TableSpec { directories: w.dirs, files: w.files }),
                    Err(e) => Err(e),
                },
                table_of(rom@, fnt, fat) matches Ok(t) ==> is_tree(t.directories),
            decreases 0x1000 - directories@.len(), stack_measure(
                frames_of(dir_stack@),
            ),
        {
            if dir_stack.len() == 0 {
                break;
            }
            let ghost w = walk_of(directories@, files@, dir_stack@, meta_entries@);
            proof {
                lemma_walk_step_progress(rom@, meta_start@, alloc_start@, w);
            }
            match walk_entry(
                rom,
                meta_start,
                alloc_start,
                &mut directories,
                &mut files,
                &mut dir_stack,
                &mut meta_entries,
            ) {
                Ok(()) => {},
                Err(e) => {
                    return Err(e);
                },
            }
        }
        assert(target == Ok::<Walk, LoadError>(
            walk_of(directories@, files@, dir_stack@, meta_entries@),
        ));
        let table = FileTable { directories, files };
        Ok(table)
    }

    /// The root directory.
    pub fn root(&self) -> (r: &Directory)
        ensures
            r@ == self@.directories[0],
    {
        proof {
            use_type_invariant(self);
        }
        &self.directories[0]
    }

    /// The directory that `id` names.
    pub fn dir(&self, id: DirId) -> (r: &Directory)
        requires
            id.idx() < self@.directories.len(),
        ensures
            r@ == self@.directories[id.idx()],
    {
        &self.directories[id.as_idx()]
    }

    /// The file that `id` names.
    pub fn file(&self, id: FileId) -> (r: &File)
        requires
            id.idx() < self@.files.len(),
        ensures
            r@ == self@.files[id.idx()],
    {
        &self.files[id.as_idx()]
    }

    /// The number of files.
    pub fn file_count(&self) -> (r: usize)
        ensures
            r == self@.files.len(),
    {
        self.files.len()
    }

    /// The number of directories.
    pub fn dir_count(&self) -> (r: usize)
        ensures
            r == self@.directories.len(),
    {
        self.directories.len()
    }

    /// The id `raw`, if it names a file of the table.
    pub fn checked_file_id(&self, raw: u16) -> (r: Option<FileId>)
        ensures
            r is Some <==> raw < self@.files.len(),
            r matches Some(id) ==> id.idx() == raw,
    {
        let res = FileId(raw);
        if res.as_idx() < self.files.len() {
            Some(res)
        } else {
            None
        }
    }
}


// ---------------------------------------------------------------------
// Walking the tree for output.

/// A step of a depth-first walk of the directory tree: entering a
/// directory, a file with its data, or leaving the directory last entered.
#[derive(Debug, Clone, Copy)]
pub enum FsEvent<'a> {
    Enter(&'a str),
    File(&'a str, &'a [u8]),
    Leave,
}

/// What an [`FsEvent`] stands for.
pub ghost enum FsEventSpec {
    Enter(Seq<char>),
    File(Seq<char>, Seq<u8>),
    Leave,
}

impl<'a> View for FsEvent<'a> {
    type V = FsEventSpec;

    open spec fn view(&self) -> FsEventSpec {
        match self {
            FsEvent::Enter(n) => FsEventSpec::Enter(n@),
            FsEvent::File(n, d) => FsEventSpec::File(n@, d@),
            FsEvent::Leave => FsEventSpec::Leave,
        }
    }
}

/// What events stand for.
pub open spec fn events_view<'a>(s: Seq<FsEvent<'a>>) -> Seq<FsEventSpec> {
    s.map_values(|e: FsEvent<'a>| e@)
}

/// Why the tree cannot be walked for output.
#[derive(Debug, Clone, Copy, PartialEq, Eq)]
pub enum WalkError {
    /// A file entry names no file.
    InvalidFileId,
    /// A file entry names an overlay file.
    OverlayInTree,
    /// A directory entry names no directory after the one that holds it.
    InvalidDirId,
}

/// `prefix` followed by the events of `rest`, or the error of `rest`.
pub open spec fn then_events(prefix: Seq<FsEventSpec>, rest: Result<Seq<FsEventSpec>, WalkError>) -> Result<
    Seq<FsEventSpec>,
    WalkError,
> {
    match rest {
        Ok(r) => Ok(prefix + r),
        Err(e) => Err(e),
    }
}

/// The events of a depth-first walk of entries `j` onwards of directory
/// `i`: a subdirectory is entered, walked and left; a file is given with
/// its name and data.
pub open spec fn events_from(t: TableSpec, i: int, j: int) -> Result<Seq<FsEventSpec>, WalkError>
    decreases t.directories.len() - i, t.directories[i].entries.len() - j,
{
    if !(0 <= i < t.directories.len()) || !(0 <= j < t.directories[i].entries.len()) {
        Ok(seq![])
    } else {
        match t.directories[i].entries[j] {
            Entry::Directory(id) => if !(i < id.idx() < t.directories.len()) {
                Err(WalkError::InvalidDirId)
            } else {
                match events_from(t, id.idx(), 0) {
                    Ok(sub) => then_events(
                        seq![FsEventSpec::Enter(t.directories[id.idx()].name)] + sub + seq![
                            FsEventSpec::Leave,
                        ],
                        events_from(t, i, j + 1),
                    ),
                    Err(e) => Err(e),
                }
            },
            Entry::File(id) => if id.idx() >= t.files.len() {
                Err(WalkError::InvalidFileId)
            } else {
                match t.files[id.idx()].name {
                    NameSpec::Name(n) => then_events(
                        seq![FsEventSpec::File(n, t.files[id.idx()].data)],
                        events_from(t, i, j + 1),
                    ),
                    NameSpec::Overlay(_) => Err(WalkError::OverlayInTree),
                }
            },
        }
    }
}

/// The walk of a tree never meets a directory entry that names no later
/// directory.
pub proof fn lemma_tree_walk(t: TableSpec, i: int, j: int)
    requires
        is_tree(t.directories),
    ensures
        events_from(t, i, j) != Err::<Seq<FsEventSpec>, WalkError>(WalkError::InvalidDirId),
    decreases t.directories.len() - i, t.directories[i].entries.len() - j,
{
    if 0 <= i < t.directories.len() && 0 <= j < t.directories[i].entries.len() {
        let e = t.directories[i].entries[j];
        assert(points_after(e, i, t.directories.len() as int));
        match e {
            Entry::Directory(id) => {
                lemma_tree_walk(t, id.idx(), 0);
                lemma_tree_walk(t, i, j + 1);
            },
            Entry::File(_) => {
                lemma_tree_walk(t, i, j + 1);
            },
        }
    }
}

/// Whether entry `e` of directory `i` shows in the events `ev` of a walk:
/// a file by a `File` event with its name and data, a directory by an
/// `Enter` event with its name and every event of its own walk.
pub open spec fn entry_shown(t: TableSpec, i: int, e: Entry, ev: Seq<FsEventSpec>) -> bool {
    match e {
        Entry::File(id) => {
            &&& 0 <= id.idx() < t.files.len()
            &&& t.files[id.idx()].name is Name
            &&& ev.contains(FsEventSpec::File(t.files[id.idx()].name->Name_0, t.files[id.idx()].data))
        },
        Entry::Directory(id) => {
            &&& i < id.idx() < t.directories.len()
            &&& ev.contains(FsEventSpec::Enter(t.directories[id.idx()].name))
            &&& events_from(t, id.idx(), 0) matches Ok(sub) && forall|m: int|
                0 <= m < sub.len() ==> ev.contains(#[trigger] sub[m])
        },
    }
}

/// A walk that succeeds leaves out no entry: every entry from `j` on of
/// directory `i` shows in its events, a subdirectory with all the events
/// of its own walk, so every file below is written out.
pub proof fn lemma_walk_covers(t: TableSpec, i: int, j: int)
    requires
        0 <= i < t.directories.len(),
        0 <= j,
    ensures
        events_from(t, i, j) matches Ok(ev) ==> forall|k: int|
            j <= k < t.directories[i].entries.len() ==> entry_shown(
                t,
                i,
                #[trigger] t.directories[i].entries[k],
                ev,
            ),
    decreases t.directories.len() - i, t.directories[i].entries.len() - j,
{
    if j < t.directories[i].entries.len() {
        lemma_walk_covers(t, i, j + 1);
        if let Ok(ev) = events_from(t, i, j) {
            let rest = events_from(t, i, j + 1)->Ok_0;
            let e = t.directories[i].entries[j];
            match e {
                Entry::Directory(id) => {
                    let sub = events_from(t, id.idx(), 0)->Ok_0;
                    let front = seq![FsEventSpec::Enter(t.directories[id.idx()].name)] + sub + seq![
                        FsEventSpec::Leave,
                    ];
                    assert(ev == front + rest);
                    assert(ev[0] == FsEventSpec::Enter(t.directories[id.idx()].name));
                    assert forall|m: int| 0 <= m < sub.len() implies ev.contains(#[trigger] sub[m]) by {
                        assert(ev[m + 1] == sub[m]);
                    }
                    assert forall|k: int| j < k < t.directories[i].entries.len() implies entry_shown(
                        t,
                        i,
                        #[trigger] t.directories[i].entries[k],
                        ev,
                    ) by {
                        lemma_shown_in_longer(t, i, t.directories[i].entries[k], rest, front);
                    }
                },
                Entry::File(id) => {
                    let front = seq![FsEventSpec::File(t.files[id.idx()].name->Name_0, t.files[id.idx()].data)];
                    assert(ev == front + rest);
                    assert(ev[0] == front[0]);
                    assert forall|k: int| j < k < t.directories[i].entries.len() implies entry_shown(
                        t,
                        i,
                        #[trigger] t.directories[i].entries[k],
                        ev,
                    ) by {
                        lemma_shown_in_longer(t, i, t.directories[i].entries[k], rest, front);
                    }
                },
            }
        }
    }
}

/// An entry shown in events is shown in any events that end with them.
proof fn lemma_shown_in_longer(t: TableSpec, i: int, e: Entry, ev: Seq<FsEventSpec>, front: Seq<FsEventSpec>)
    requires
        entry_shown(t, i, e, ev),
    ensures
        entry_shown(t, i, e, front + ev),
{
    let all = front + ev;
    assert forall|x: FsEventSpec| ev.contains(x) implies all.contains(x) by {
        let m = choose|m: int| 0 <= m < ev.len() && ev[m] == x;
        assert(all[front.len() + m] == x);
    }
    match e {
        Entry::File(id) => {},
        Entry::Directory(id) => {
            let sub = events_from(t, id.idx(), 0)->Ok_0;
            assert forall|m: int| 0 <= m < sub.len() implies all.contains(#[trigger] sub[m]) by {
                assert(ev.contains(sub[m]));
            }
        },
    }
}

impl FileTable {
    /// The depth-first walk of the directory tree from the root: each
    /// subdirectory is entered, walked and left, each file given with its
    /// name and data, in table order. A file entry that names no file, or
    /// an overlay file, stops the walk.
    pub fn fs_events(&self) -> (r: Result<Vec<FsEvent<'_>>, WalkError>)
        ensures
            match events_from(self@, 0, 0) {
                Ok(ev) => r matches Ok(v) && events_view(v@) == ev,
                Err(e) => r == Err::<Vec<FsEvent<'_>>, WalkError>(e),
            },
            r matches Err(e) ==> e != WalkError::InvalidDirId,
            r matches Ok(v) ==> forall|k: int|
                0 <= k < self@.directories[0].entries.len() ==> entry_shown(
                    self@,
                    0,
                    #[trigger] self@.directories[0].entries[k],
                    events_view(v@),
                ),
    {
        proof {
            use_type_invariant(self);
            lemma_tree_walk(self@, 0, 0);
            lemma_walk_covers(self@, 0, 0);
        }
        let mut out: Vec<FsEvent<'_>> = Vec::new();
        match self.push_events(0, &mut out) {
            Ok(()) => {},
            Err(e) => return Err(e),
        }
        assert(events_view(out@) =~= Seq::<FsEventSpec>::empty() + events_from(self@, 0, 0)->Ok_0);
        Ok(out)
    }

    /// Appends the events of entries `j` onwards of directory `i`.
    fn push_events<'a>(&'a self, i: usize, out: &mut Vec<FsEvent<'a>>) -> (r: Result<(), WalkError>)
        requires
            i < self@.directories.len(),
        ensures
            match events_from(self@, i as int, 0) {
                Ok(ev) => r is Ok && events_view(final(out)@) == events_view(old(out)@) + ev,
                Err(e) => r == Err::<(), WalkError>(e),
            },
        decreases self@.directories.len() - i,
    {
        proof {
            use_type_invariant(self);
        }
        let ghost t = self@;
        let ghost start = events_view(out@);
        let dir = &self.directories[i];
        let n = dir.entries.len();
        let mut j: usize = 0;
        assert(events_view(out@) =~= start + Seq::<FsEventSpec>::empty());
        assert(events_from(t, i as int, 0) == then_events(
            Seq::<FsEventSpec>::empty(),
            events_from(t, i as int, 0),
        )) by {
            if let Ok(r) = events_from(t, i as int, 0) {
                assert(Seq::<FsEventSpec>::empty() + r =~= r);
            }
        }
        while j < n
            invariant
                t == self@,
                i < t.directories.len(),
                *dir == self.directories@[i as int],
                n == t.directories[i as int].entries.len(),
                j <= n,
                exists|done: Seq<FsEventSpec>|
                    events_view(out@) == start + done && events_from(t, i as int, 0)
                        == then_events(done, events_from(t, i as int, j as int)),
            decreases n - j,
        {
            let ghost done = choose|done: Seq<FsEventSpec>|
                events_view(out@) == start + done && events_from(t, i as int, 0) == then_events(
                    done,
                    events_from(t, i as int, j as int),
                );
            assert(dir.entries@[j as int] == t.directories[i as int].entries[j as int]);
            match dir.entries[j] {
                Entry::Directory(id) => {
                    let k = id.as_idx();
                    if !(i < k && k < self.directories.len()) {
                        return Err(WalkError::InvalidDirId);
                    }
                    let ghost before = out@;
                    out.push(FsEvent::Enter(self.directories[k].name()));
                    let ghost mid = events_view(out@);
                    assert(mid =~= events_view(before).push(
                        FsEventSpec::Enter(t.directories[k as int].name),
                    ));
                    match self.push_events(k, out) {
                        Ok(()) => {},
                        Err(e) => return Err(e),
                    }
                    let ghost sub = events_from(t, k as int, 0)->Ok_0;
                    let ghost after_sub = out@;
                    out.push(FsEvent::Leave);
                    assert(events_view(out@) =~= events_view(after_sub).push(FsEventSpec::Leave));
                    let ghost step = seq![FsEventSpec::Enter(t.directories[k as int].name)] + sub
                        + seq![FsEventSpec::Leave];
                    assert(events_view(out@) =~= start + (done + step));
                    assert(then_events(done, events_from(t, i as int, j as int)) == then_events(
                        done + step,
                        events_from(t, i as int, j + 1),
                    )) by {
                        if let Ok(r) = events_from(t, i as int, j + 1) {
                            assert(done + (step + r) =~= (done + step) + r);
                        }
                    }
                },
                Entry::File(id) => {
                    if id.as_idx() >= self.files.len() {
                        return Err(WalkError::InvalidFileId);
                    }
                    let file = &self.files[id.as_idx()];
                    match &file.name {
                        FileName::Name(name) => {
                            let ghost before = out@;
                            out.push(FsEvent::File(name.as_str(), file.data.as_slice()));
                            assert(events_view(out@) =~= events_view(before).push(
                                FsEventSpec::File(name@, file.data@),
                            ));
                            let ghost step = seq![
                                FsEventSpec::File(name@, file.data@),
                            ];
                            assert(events_view(out@) =~= start + (done + step));
                            assert(then_events(done, events_from(t, i as int, j as int))
                                == then_events(done + step, events_from(t, i as int, j + 1))) by {
                                if let Ok(r) = events_from(t, i as int, j + 1) {
                                    assert(done + (step + r) =~= (done + step) + r);
                                }
                            }
                        },
                        FileName::Overlay(_) => return Err(WalkError::OverlayInTree),
                    }
                },
            }
            j += 1;
        }
        proof {
            let done = choose|done: Seq<FsEventSpec>|
                events_view(out@) == start + done && events_from(t, i as int, 0) == then_events(
                    done,
                    events_from(t, i as int, j as int),
                );
            assert(done + Seq::<FsEventSpec>::empty() =~= done);
        }
        Ok(())
    }
}

} // verus!
