//! The cartridge header at the start of a ROM image.

use vstd::prelude::*;
use crate::bytes::{le16, le32, le64, lemma_skip_skip, read_exact_array, read_u16_le, read_u32_le, read_u64_le, read_u8, skip_bytes};
use crate::error::LoadError;

verus! {

/// The errors of reading a header: those of [`LoadError`], of which the
/// header gives only [`LoadError::UnexpectedEof`].
pub type Error = LoadError;

/// The little-endian 16-bit value at offset `p`.
pub open spec fn u16_at(s: Seq<u8>, p: int) -> int {
    le16(s.skip(p))
}

/// The little-endian 32-bit value at offset `p`.
pub open spec fn u32_at(s: Seq<u8>, p: int) -> int {
    le32(s.skip(p))
}

/// The little-endian 64-bit value at offset `p`.
pub open spec fn u64_at(s: Seq<u8>, p: int) -> int {
    le64(s.skip(p))
}

/// The number of header bytes that are read.
pub const HEADER_LEN: usize = 0x88;

/// The cartridge header.
#[derive(Debug)]
pub struct NdsHeader {
    pub title: [u8; 12],
    pub game_code: [u8; 4],
    pub creator_code: [u8; 2],
    pub unit_code: u8,
    pub encryption_seed: u8,
    pub capacity: u32,
    pub version: u8,
    pub auto_start: u8,
    pub arm9_rom_offset: u32,
    pub arm9_entry_address: u32,
    pub arm9_ram_address: u32,
    pub arm9_size: u32,
    pub arm7_rom_offset: u32,
    pub arm7_entry_address: u32,
    pub arm7_ram_address: u32,
    pub arm7_size: u32,
    pub file_table_offset: u32,
    pub file_table_size: u32,
    pub file_alloc_offset: u32,
    pub file_alloc_size: u32,
    pub arm9_overlay_offset: u32,
    pub arm9_overlay_size: u32,
    pub arm7_overlay_offset: u32,
    pub arm7_overlay_size: u32,
    pub command_port_normal: u32,
    pub command_port_key1: u32,
    pub icon_title_offset: u32,
    pub secure_checksum: u16,
    pub secure_loading_timeout: u16,
    pub arm9_auto_load: u32,
    pub arm7_auto_load: u32,
    pub secure_area_disable: u64,
    pub used_size: u32,
    pub header_size: u32,
}

/// Reads the byte at `p` of `rom`, the cursor standing at `p`.
fn next_u8(c: &mut &[u8], Ghost(rom): Ghost<Seq<u8>>, Ghost(p): Ghost<int>) -> (r: Result<
    u8,
    LoadError,
>)
    requires
        0 <= p <= rom.len(),
        old(c)@ == rom.skip(p),
    ensures
        r is Ok <==> p + 1 <= rom.len(),
        r matches Ok(v) ==> v == rom[p] && final(c)@ == rom.skip(p + 1),
        r matches Err(e) ==> e == LoadError::UnexpectedEof,
{
    match read_u8(c) {
        Some(v) => {
            proof {
                lemma_skip_skip(rom, p, 1);
            }
            Ok(v)
        },
        None => Err(LoadError::UnexpectedEof),
    }
}

/// Reads the 16-bit value at `p` of `rom`, the cursor standing at `p`.
fn next_u16(c: &mut &[u8], Ghost(rom): Ghost<Seq<u8>>, Ghost(p): Ghost<int>) -> (r: Result<
    u16,
    LoadError,
>)
    requires
        0 <= p <= rom.len(),
        old(c)@ == rom.skip(p),
    ensures
        r is Ok <==> p + 2 <= rom.len(),
        r matches Ok(v) ==> v == u16_at(rom, p) && final(c)@ == rom.skip(p + 2),
        r matches Err(e) ==> e == LoadError::UnexpectedEof,
{
    match read_u16_le(c) {
        Some(v) => {
            proof {
                lemma_skip_skip(rom, p, 2);
            }
            Ok(v)
        },
        None => Err(LoadError::UnexpectedEof),
    }
}

/// Reads the 32-bit value at `p` of `rom`, the cursor standing at `p`.
fn next_u32(c: &mut &[u8], Ghost(rom): Ghost<Seq<u8>>, Ghost(p): Ghost<int>) -> (r: Result<
    u32,
    LoadError,
>)
    requires
        0 <= p <= rom.len(),
        old(c)@ == rom.skip(p),
    ensures
        r is Ok <==> p + 4 <= rom.len(),
        r matches Ok(v) ==> v == u32_at(rom, p) && final(c)@ == rom.skip(p + 4),
        r matches Err(e) ==> e == LoadError::UnexpectedEof,
{
    match read_u32_le(c) {
        Some(v) => {
            proof {
                lemma_skip_skip(rom, p, 4);
            }
            Ok(v)
        },
        None => Err(LoadError::UnexpectedEof),
    }
}

/// Reads the 64-bit value at `p` of `rom`, the cursor standing at `p`.
fn next_u64(c: &mut &[u8], Ghost(rom): Ghost<Seq<u8>>, Ghost(p): Ghost<int>) -> (r: Result<
    u64,
    LoadError,
>)
    requires
        0 <= p <= rom.len(),
        old(c)@ == rom.skip(p),
    ensures
        r is Ok <==> p + 8 <= rom.len(),
        r matches Ok(v) ==> v == u64_at(rom, p) && final(c)@ == rom.skip(p + 8),
        r matches Err(e) ==> e == LoadError::UnexpectedEof,
{
    match read_u64_le(c) {
        Some(v) => {
            proof {
                lemma_skip_skip(rom, p, 8);
            }
            Ok(v)
        },
        None => Err(LoadError::UnexpectedEof),
    }
}

impl NdsHeader {
    /// Whether every field holds what stands at its offset in `rom`.
    pub open spec fn laid_out_in(&self, rom: Seq<u8>) -> bool {
        &&& self.title@ == rom.subrange(0x00, 0x0c)
        &&& self.game_code@ == rom.subrange(0x0c, 0x10)
        &&& self.creator_code@ == rom.subrange(0x10, 0x12)
        &&& self.unit_code == rom[0x12]
        &&& self.encryption_seed == rom[0x13]
        &&& self.capacity == u32_at(rom, 0x14)
        &&& self.version == rom[0x1e]
        &&& self.auto_start == rom[0x1f]
        &&& self.arm9_rom_offset == u32_at(rom, 0x20)
        &&& self.arm9_entry_address == u32_at(rom, 0x24)
        &&& self.arm9_ram_address == u32_at(rom, 0x28)
        &&& self.arm9_size == u32_at(rom, 0x2c)
        &&& self.arm7_rom_offset == u32_at(rom, 0x30)
        &&& self.arm7_entry_address == u32_at(rom, 0x34)
        &&& self.arm7_ram_address == u32_at(rom, 0x38)
        &&& self.arm7_size == u32_at(rom, 0x3c)
        &&& self.file_table_offset == u32_at(rom, 0x40)
        &&& self.file_table_size == u32_at(rom, 0x44)
        &&& self.file_alloc_offset == u32_at(rom, 0x48)
        &&& self.file_alloc_size == u32_at(rom, 0x4c)
        &&& self.arm9_overlay_offset == u32_at(rom, 0x50)
        &&& self.arm9_overlay_size == u32_at(rom, 0x54)
        &&& self.arm7_overlay_offset == u32_at(rom, 0x58)
        &&& self.arm7_overlay_size == u32_at(rom, 0x5c)
        &&& self.command_port_normal == u32_at(rom, 0x60)
        &&& self.command_port_key1 == u32_at(rom, 0x64)
        &&& self.icon_title_offset == u32_at(rom, 0x68)
        &&& self.secure_checksum == u16_at(rom, 0x6c)
        &&& self.secure_loading_timeout == u16_at(rom, 0x6e)
        &&& self.arm9_auto_load == u32_at(rom, 0x70)
        &&& self.arm7_auto_load == u32_at(rom, 0x74)
        &&& self.secure_area_disable == u64_at(rom, 0x78)
        &&& self.used_size == u32_at(rom, 0x80)
        &&& self.header_size == u32_at(rom, 0x84)
    }

    /// Reads the header from the start of a ROM image.
    ///
    /// Six reserved bytes after the capacity are skipped, which data that
    /// ends inside them does not allow; any other data shorter than the
    /// header gives [`LoadError::UnexpectedEof`].
    pub fn load(rom: &[u8]) -> (r: Result<NdsHeader, LoadError>)
        requires
            !(0x18 <= rom@.len() < 0x1e),
        ensures
            r is Ok <==> rom@.len() >= HEADER_LEN,
            r matches Ok(h) ==> h.laid_out_in(rom@),
            r matches Err(e) ==> e == LoadError::UnexpectedEof,
    {
        let ghost s = rom@;
        let mut c = rom;
        assert(c@ == s.skip(0));

        let mut title = [0u8; 12];
        if !read_exact_array(&mut c, &mut title) {
            return Err(LoadError::UnexpectedEof);
        }
        assert(title@ == s.subrange(0, 12));
        assert(c@ == s.skip(12));

        let mut game_code = [0u8; 4];
        if !read_exact_array(&mut c, &mut game_code) {
            return Err(LoadError::UnexpectedEof);
        }
        assert(game_code@ == s.subrange(12, 16));
        assert(c@ == s.skip(16));

        let mut creator_code = [0u8; 2];
        if !read_exact_array(&mut c, &mut creator_code) {
            return Err(LoadError::UnexpectedEof);
        }
        assert(creator_code@ == s.subrange(16, 18));
        assert(c@ == s.skip(18));

        let unit_code = next_u8(&mut c, Ghost(s), Ghost(0x12))?;
        let encryption_seed = next_u8(&mut c, Ghost(s), Ghost(0x13))?;
        let capacity = next_u32(&mut c, Ghost(s), Ghost(0x14))?;
        if !skip_bytes(&mut c, 6) {
            return Err(LoadError::OutOfBounds);
        }
        proof {
            lemma_skip_skip(s, 0x18, 6);
        }

        let version = next_u8(&mut c, Ghost(s), Ghost(0x1e))?;
        let auto_start = next_u8(&mut c, Ghost(s), Ghost(0x1f))?;
        let arm9_rom_offset = next_u32(&mut c, Ghost(s), Ghost(0x20))?;
        let arm9_entry_address = next_u32(&mut c, Ghost(s), Ghost(0x24))?;
        let arm9_ram_address = next_u32(&mut c, Ghost(s), Ghost(0x28))?;
        let arm9_size = next_u32(&mut c, Ghost(s), Ghost(0x2c))?;
        let arm7_rom_offset = next_u32(&mut c, Ghost(s), Ghost(0x30))?;
        let arm7_entry_address = next_u32(&mut c, Ghost(s), Ghost(0x34))?;
        let arm7_ram_address = next_u32(&mut c, Ghost(s), Ghost(0x38))?;
        let arm7_size = next_u32(&mut c, Ghost(s), Ghost(0x3c))?;
        let file_table_offset = next_u32(&mut c, Ghost(s), Ghost(0x40))?;
        let file_table_size = next_u32(&mut c, Ghost(s), Ghost(0x44))?;
        let file_alloc_offset = next_u32(&mut c, Ghost(s), Ghost(0x48))?;
        let file_alloc_size = next_u32(&mut c, Ghost(s), Ghost(0x4c))?;
        let arm9_overlay_offset = next_u32(&mut c, Ghost(s), Ghost(0x50))?;
        let arm9_overlay_size = next_u32(&mut c, Ghost(s), Ghost(0x54))?;
        let arm7_overlay_offset = next_u32(&mut c, Ghost(s), Ghost(0x58))?;
        let arm7_overlay_size = next_u32(&mut c, Ghost(s), Ghost(0x5c))?;
        let command_port_normal = next_u32(&mut c, Ghost(s), Ghost(0x60))?;
        let command_port_key1 = next_u32(&mut c, Ghost(s), Ghost(0x64))?;
        let icon_title_offset = next_u32(&mut c, Ghost(s), Ghost(0x68))?;
        let secure_checksum = next_u16(&mut c, Ghost(s), Ghost(0x6c))?;
        let secure_loading_timeout = next_u16(&mut c, Ghost(s), Ghost(0x6e))?;
        let arm9_auto_load = next_u32(&mut c, Ghost(s), Ghost(0x70))?;
        let arm7_auto_load = next_u32(&mut c, Ghost(s), Ghost(0x74))?;
        let secure_area_disable = next_u64(&mut c, Ghost(s), Ghost(0x78))?;
        let used_size = next_u32(&mut c, Ghost(s), Ghost(0x80))?;
        let header_size = next_u32(&mut c, Ghost(s), Ghost(0x84))?;

        Ok(NdsHeader {
            title,
            game_code,
            creator_code,
            unit_code,
            encryption_seed,
            capacity,
            version,
            auto_start,
            arm9_rom_offset,
            arm9_entry_address,
            arm9_ram_address,
            arm9_size,
            arm7_rom_offset,
            arm7_entry_address,
            arm7_ram_address,
            arm7_size,
            file_table_offset,
            file_table_size,
            file_alloc_offset,
            file_alloc_size,
            arm9_overlay_offset,
            arm9_overlay_size,
            arm7_overlay_offset,
            arm7_overlay_size,
            command_port_normal,
            command_port_key1,
            icon_title_offset,
            secure_checksum,
            secure_loading_timeout,
            arm9_auto_load,
            arm7_auto_load,
            secure_area_disable,
            used_size,
            header_size,
        })
    }
}

} // verus!
