use nds_util::error::LoadError;
use nds_util::file_table::{Entry, FileName, FileTable, FsEvent, WalkError};
use nds_util::header::NdsHeader;
use nds_util::overlay::OverlayTable;
use nds_util::rom::{checked_rom_range, extract_arm9, overlay_outputs, Arm9Error, OverlayFileError};
use nds_util::blz::BlzError;

fn put32(rom: &mut [u8], at: usize, v: u32) {
    rom[at..at + 4].copy_from_slice(&v.to_le_bytes());
}

fn put16(rom: &mut [u8], at: usize, v: u16) {
    rom[at..at + 2].copy_from_slice(&v.to_le_bytes());
}

const FNT: usize = 0x200;
const FAT: usize = 0x400;
const OVT: usize = 0x600;
const ARM9: usize = 0x4000;

/// A ROM with one overlay (file 0), a root holding `a.txt` (file 1) and
/// `sub`, and `sub` holding `b` (file 2).
fn sample_rom() -> Vec<u8> {
    let mut rom = vec![0u8; 0x8100];
    put32(&mut rom, 0x40, FNT as u32);
    put32(&mut rom, 0x48, FAT as u32);
    put32(&mut rom, 0x50, OVT as u32);
    put32(&mut rom, 0x54, 0x28);
    put32(&mut rom, 0x58, 0x700);
    put32(&mut rom, 0x5c, 0);

    // Directory entries.
    put32(&mut rom, FNT, 16);
    put16(&mut rom, FNT + 4, 1);
    put16(&mut rom, FNT + 6, 2);
    put32(&mut rom, FNT + 8, 29);
    put16(&mut rom, FNT + 12, 2);
    put16(&mut rom, FNT + 14, 0xf000);
    // Root's name list.
    let root_list: &[u8] = &[0x05, b'a', b'.', b't', b'x', b't', 0x83, b's', b'u', b'b', 0x01, 0xf0, 0x00];
    rom[FNT + 16..FNT + 29].copy_from_slice(root_list);
    // sub's name list.
    rom[FNT + 29..FNT + 32].copy_from_slice(&[0x01, b'b', 0x00]);

    // Allocation table.
    for (k, (s, e)) in [(0x8000u32, 0x8004u32), (0x8004, 0x8008), (0x8008, 0x800c)].iter().enumerate() {
        put32(&mut rom, FAT + 8 * k, *s);
        put32(&mut rom, FAT + 8 * k + 4, *e);
    }
    rom[0x8000..0x800c].copy_from_slice(b"OVL0AAAABBBB");

    // ARM9 overlay table: one entry, then 8 bytes that are no entry.
    put32(&mut rom, OVT, 0);
    put32(&mut rom, OVT + 4, 0x0200_0000);
    put32(&mut rom, OVT + 8, 0x100);
    put32(&mut rom, OVT + 12, 0x10);
    put32(&mut rom, OVT + 16, 0x20);
    put32(&mut rom, OVT + 20, 0x30);
    put16(&mut rom, OVT + 24, 0);
    rom
}

fn load_table(rom: &[u8]) -> Result<FileTable, LoadError> {
    let header = NdsHeader::load(rom).unwrap();
    FileTable::load(rom, &header)
}

#[test]
fn file_table_load_tree() {
    let rom = sample_rom();
    let table = load_table(&rom).unwrap();
    let root = table.root();
    assert_eq!(root.name(), "root");
    let entries = root.iter();
    assert_eq!(entries.len(), 2);
    let file_a = match entries[0] {
        Entry::File(id) => table.file(id),
        Entry::Directory(_) => panic!("expected a file"),
    };
    match file_a.name() {
        FileName::Name(n) => assert_eq!(n, "a.txt"),
        FileName::Overlay(_) => panic!("expected a name"),
    }
    assert_eq!(file_a.data(), b"AAAA");
    let sub = match entries[1] {
        Entry::Directory(id) => table.dir(id),
        Entry::File(_) => panic!("expected a directory"),
    };
    assert_eq!(sub.name(), "sub");
    let sub_entries = sub.iter();
    assert_eq!(sub_entries.len(), 1);
    let file_b = match sub_entries[0] {
        Entry::File(id) => table.file(id),
        Entry::Directory(_) => panic!("expected a file"),
    };
    assert_eq!(file_b.data(), b"BBBB");
    assert_eq!(table.dir_count(), 2);
    assert_eq!(table.file_count(), 3);
}

#[test]
fn file_table_overlays_come_first() {
    let rom = sample_rom();
    let table = load_table(&rom).unwrap();
    let id = table.checked_file_id(0).unwrap();
    match table.file(id).name() {
        FileName::Overlay(n) => assert_eq!(*n, 0),
        FileName::Name(_) => panic!("expected an overlay"),
    }
    assert_eq!(table.file(id).data(), b"OVL0");
    for raw in 1..3u16 {
        let id = table.checked_file_id(raw).unwrap();
        assert!(matches!(table.file(id).name(), FileName::Name(_)));
    }
}

#[test]
fn file_table_checked_file_id() {
    let rom = sample_rom();
    let table = load_table(&rom).unwrap();
    assert!(table.checked_file_id(2).is_some());
    assert!(table.checked_file_id(3).is_none());
    assert_eq!(table.checked_file_id(1).unwrap().as_idx(), 1);
}

#[test]
fn file_table_dir_ids_point_forward() {
    let rom = sample_rom();
    let table = load_table(&rom).unwrap();
    let mut seen = 0;
    for e in table.root().iter() {
        if let Entry::Directory(id) = e {
            assert!(id.as_idx() > 0 && id.as_idx() < table.dir_count());
            for sub_entry in table.dir(id).iter() {
                if let Entry::Directory(sub_id) = sub_entry {
                    assert!(sub_id.as_idx() > id.as_idx() && sub_id.as_idx() < table.dir_count());
                }
            }
            seen += 1;
        }
    }
    assert_eq!(seen, 1);
}

#[test]
fn file_table_fs_events() {
    let rom = sample_rom();
    let table = load_table(&rom).unwrap();
    let events = table.fs_events().unwrap();
    assert_eq!(events.len(), 4);
    assert!(matches!(events[0], FsEvent::File("a.txt", b"AAAA")));
    assert!(matches!(events[1], FsEvent::Enter("sub")));
    assert!(matches!(events[2], FsEvent::File("b", b"BBBB")));
    assert!(matches!(events[3], FsEvent::Leave));
}

#[test]
fn file_table_fs_events_overlay_in_tree() {
    let mut rom = sample_rom();
    // sub's first file id now names the overlay file.
    put16(&mut rom, FNT + 12, 0);
    let table = load_table(&rom).unwrap();
    assert_eq!(table.fs_events().unwrap_err(), WalkError::OverlayInTree);
}

#[test]
fn file_table_fs_events_invalid_file_id() {
    let mut rom = sample_rom();
    // sub's file gets id 5, which names no loaded file.
    put16(&mut rom, FNT + 12, 5);
    put32(&mut rom, FAT + 40, 0x8000);
    put32(&mut rom, FAT + 44, 0x8004);
    let table = load_table(&rom).unwrap();
    assert_eq!(table.file_count(), 3);
    assert_eq!(table.fs_events().unwrap_err(), WalkError::InvalidFileId);
}

#[test]
fn file_table_name_table_out_of_bounds() {
    let mut rom = sample_rom();
    put32(&mut rom, 0x40, 0x9000);
    assert_eq!(load_table(&rom).unwrap_err(), LoadError::OutOfBounds);
}

#[test]
fn file_table_truncated_name_table() {
    let mut rom = sample_rom();
    let len = rom.len() as u32;
    put32(&mut rom, 0x40, len - 4);
    assert_eq!(load_table(&rom).unwrap_err(), LoadError::UnexpectedEof);
}

#[test]
fn file_table_invalid_total_dir_count() {
    let mut rom = sample_rom();
    put16(&mut rom, FNT + 6, 0x1001);
    assert_eq!(load_table(&rom).unwrap_err(), LoadError::InvalidTotalDirCount);
}

#[test]
fn file_table_alloc_table_out_of_bounds() {
    let mut rom = sample_rom();
    put32(&mut rom, 0x48, 0x9000);
    assert_eq!(load_table(&rom).unwrap_err(), LoadError::OutOfBounds);
}

#[test]
fn file_table_overlay_in_secure_area() {
    let mut rom = sample_rom();
    put32(&mut rom, FAT, 0x100);
    assert_eq!(load_table(&rom).unwrap_err(), LoadError::InvalidFileDataAddress);
}

#[test]
fn file_table_file_past_rom_end() {
    let mut rom = sample_rom();
    put32(&mut rom, FAT + 12, 0x9000);
    assert_eq!(load_table(&rom).unwrap_err(), LoadError::InvalidFileDataAddress);
}

#[test]
fn file_table_reversed_file_range() {
    let mut rom = sample_rom();
    put32(&mut rom, FAT + 16, 0x8010);
    assert_eq!(load_table(&rom).unwrap_err(), LoadError::InvalidFileDataAddress);
}

#[test]
fn file_table_name_not_ascii() {
    let mut rom = sample_rom();
    rom[FNT + 17] = 0xc3;
    assert_eq!(load_table(&rom).unwrap_err(), LoadError::NameNotAscii);
}

#[test]
fn file_table_dot_name() {
    let mut rom = sample_rom();
    rom[FNT + 30] = b'.';
    assert_eq!(load_table(&rom).unwrap_err(), LoadError::DotName);
}

#[test]
fn file_table_dot_dot_name() {
    let mut rom = sample_rom();
    // Root's subdirectory is named "..", one byte shorter than "sub".
    let root_list: &[u8] = &[0x05, b'a', b'.', b't', b'x', b't', 0x82, b'.', b'.', 0x01, 0xf0, 0x00];
    rom[FNT + 16..FNT + 28].copy_from_slice(root_list);
    assert_eq!(load_table(&rom).unwrap_err(), LoadError::DotName);
}

#[test]
fn file_table_invalid_parent_id() {
    let mut rom = sample_rom();
    put16(&mut rom, FNT + 14, 0xf005);
    assert_eq!(load_table(&rom).unwrap_err(), LoadError::InvalidParentId);
}

#[test]
fn file_table_nonsequential_dir_id() {
    let mut rom = sample_rom();
    put16(&mut rom, FNT + 26, 0xf002);
    assert_eq!(load_table(&rom).unwrap_err(), LoadError::NonsequentialDirId);
}

#[test]
fn file_table_root_list_out_of_bounds() {
    let mut rom = sample_rom();
    put32(&mut rom, FNT, 0x9000);
    assert_eq!(load_table(&rom).unwrap_err(), LoadError::OutOfBounds);
}

#[test]
fn file_table_unterminated_name_list() {
    let mut rom = sample_rom();
    // sub's name list starts at the last byte of the ROM, a name of 3 bytes.
    let last = rom.len() - 1;
    rom[last] = 0x03;
    put32(&mut rom, FNT + 8, (last - FNT) as u32);
    assert_eq!(load_table(&rom).unwrap_err(), LoadError::UnexpectedEof);
}

#[test]
fn file_table_file_id_overflow() {
    let mut rom = sample_rom();
    rom.resize(FAT + 8 * 0x10001 + 8, 0);
    // sub holds two files, the second of which has no 16-bit id.
    put16(&mut rom, FNT + 12, 0xffff);
    rom[FNT + 29..FNT + 35].copy_from_slice(&[0x01, b'b', 0x01, b'c', 0x00, 0x00]);
    for k in [0xffffusize, 0x10000] {
        put32(&mut rom, FAT + 8 * k, 0x8000);
        put32(&mut rom, FAT + 8 * k + 4, 0x8004);
    }
    assert_eq!(load_table(&rom).unwrap_err(), LoadError::FileIdOverflow);
}

#[test]
fn overlay_table_load() {
    let rom = sample_rom();
    let header = NdsHeader::load(&rom).unwrap();
    let table = load_table(&rom).unwrap();
    let overlays = OverlayTable::load(&rom, &header, &table).unwrap();
    assert_eq!(overlays.arm9_overlays().len(), 1);
    assert_eq!(overlays.arm7_overlays().len(), 0);
    let o = overlays.arm9_overlays()[0];
    assert_eq!(o.file_id().as_idx(), 0);
    assert_eq!(
        format!("{:?}", o),
        "Overlay { address: 33554432, size: 256, pad_size: 16, file_id: FileId(0), \
         static_initializer_start: 32, static_initializer_end: 48 }"
    );
}

fn load_overlays(rom: &[u8]) -> Result<OverlayTable, LoadError> {
    let header = NdsHeader::load(rom).unwrap();
    let table = load_table(rom).unwrap();
    OverlayTable::load(rom, &header, &table)
}

#[test]
fn overlay_table_invalid_offset() {
    let mut rom = sample_rom();
    put32(&mut rom, 0x50, 0x9000);
    assert_eq!(load_overlays(&rom).unwrap_err(), LoadError::InvalidOverlayTableOffset);
}

#[test]
fn overlay_table_invalid_size() {
    let mut rom = sample_rom();
    put32(&mut rom, 0x54, 0x8000);
    assert_eq!(load_overlays(&rom).unwrap_err(), LoadError::InvalidOverlayTableSize);
}

#[test]
fn overlay_table_arm7_invalid_offset() {
    let mut rom = sample_rom();
    put32(&mut rom, 0x58, 0x9000);
    assert_eq!(load_overlays(&rom).unwrap_err(), LoadError::InvalidOverlayTableOffset);
}

#[test]
fn overlay_table_nonsequential_ids() {
    let mut rom = sample_rom();
    put32(&mut rom, OVT, 1);
    assert_eq!(load_overlays(&rom).unwrap_err(), LoadError::NonsequentialOverlayIds);
}

#[test]
fn overlay_table_static_initializer_order() {
    let mut rom = sample_rom();
    put32(&mut rom, OVT + 20, 0x1f);
    assert_eq!(load_overlays(&rom).unwrap_err(), LoadError::StaticInitializerOrder);
}

#[test]
fn overlay_table_invalid_file_id() {
    let mut rom = sample_rom();
    put16(&mut rom, OVT + 24, 7);
    assert_eq!(load_overlays(&rom).unwrap_err(), LoadError::InvalidFileId);
}

#[test]
fn overlay_table_not_overlay_file() {
    let mut rom = sample_rom();
    put16(&mut rom, OVT + 24, 1);
    assert_eq!(load_overlays(&rom).unwrap_err(), LoadError::NotOverlayFile);
}

#[test]
fn rom_checked_range() {
    let rom: Vec<u8> = (0..32).collect();
    assert_eq!(checked_rom_range(&rom, 4, 3, "arm9"), &[4, 5, 6]);
    assert_eq!(checked_rom_range(&rom, 32, 0, "arm7"), &[] as &[u8]);
}

#[test]
fn rom_overlay_outputs() {
    let rom = sample_rom();
    let header = NdsHeader::load(&rom).unwrap();
    let table = load_table(&rom).unwrap();
    let overlays = OverlayTable::load(&rom, &header, &table).unwrap();
    let (out, stop) = overlay_outputs(&table, overlays.arm9_overlays());
    assert_eq!(out, vec![(0usize, &b"OVL0"[..])]);
    assert_eq!(stop, None);
    let (out7, stop7) = overlay_outputs(&table, overlays.arm7_overlays());
    assert!(out7.is_empty());
    assert_eq!(stop7, None);
}

fn arm9_rom() -> Vec<u8> {
    let mut rom = sample_rom();
    let mut blz: Vec<u8> = (0x10..0x19).collect();
    blz.extend_from_slice(&[0x41, 0x42, 0x43, 0x44, 0x45, 0x46, 0x47, 0x48, 0x00]);
    blz.extend_from_slice(&((8u32 << 24) | 17).to_le_bytes());
    blz.extend_from_slice(&9u32.to_le_bytes());
    rom[ARM9..ARM9 + blz.len()].copy_from_slice(&blz);
    put32(&mut rom, 0x20, ARM9 as u32);
    put32(&mut rom, 0x2c, blz.len() as u32);
    rom
}

#[test]
fn rom_extract_arm9() {
    let rom = arm9_rom();
    let header = NdsHeader::load(&rom).unwrap();
    let out = extract_arm9(&rom, &header).unwrap();
    let mut expected = rom[ARM9..ARM9 + 27].to_vec();
    expected.extend_from_slice(b"ABCDEFGH");
    assert_eq!(out, expected);
}

#[test]
fn rom_extract_arm9_end_overflow() {
    let mut rom = arm9_rom();
    put32(&mut rom, 0x2c, 0xffff_ffff);
    let header = NdsHeader::load(&rom).unwrap();
    assert_eq!(extract_arm9(&rom, &header), Err(Arm9Error::EndOverflow));
}

#[test]
fn rom_extract_arm9_bad_footer() {
    let mut rom = arm9_rom();
    put32(&mut rom, 0x2c, 0x100_0000);
    let header = NdsHeader::load(&rom).unwrap();
    assert_eq!(extract_arm9(&rom, &header), Err(Arm9Error::Blz(BlzError::OffsetOutOfBounds)));
}

#[test]
fn rom_extract_arm9_starts_before_binary() {
    let mut rom = arm9_rom();
    // The data is decompressed to just below the footer's end, and the
    // binary is said to start past where the decompressed data starts.
    put32(&mut rom, ARM9 + 22, 0);
    put32(&mut rom, 0x20, (ARM9 + 20) as u32);
    put32(&mut rom, 0x2c, 6);
    let header = NdsHeader::load(&rom).unwrap();
    assert_eq!(extract_arm9(&rom, &header), Err(Arm9Error::StartsBeforeBinary));
}

#[test]
fn rom_overlay_outputs_stop_at_named_file() {
    // A ROM with two overlays (files 0 and 1) and two overlay entries.
    let mut rom = sample_rom();
    put16(&mut rom, FNT + 4, 2);
    put16(&mut rom, FNT + 12, 3);
    put32(&mut rom, FAT + 24, 0x8008);
    put32(&mut rom, FAT + 28, 0x800c);
    put32(&mut rom, 0x54, 0x40);
    put32(&mut rom, OVT + 32, 1);
    put32(&mut rom, OVT + 52, 0x30);
    put16(&mut rom, OVT + 56, 1);
    let header = NdsHeader::load(&rom).unwrap();
    let two_overlays = load_table(&rom).unwrap();
    let overlays = OverlayTable::load(&rom, &header, &two_overlays).unwrap();
    assert_eq!(overlays.arm9_overlays().len(), 2);
    let (out, stop) = overlay_outputs(&two_overlays, overlays.arm9_overlays());
    assert_eq!(out.len(), 2);
    assert_eq!(stop, None);

    // Against the sample table, file 1 is the named file `a.txt`.
    let sample = sample_rom();
    let one_overlay = load_table(&sample).unwrap();
    let (out, stop) = overlay_outputs(&one_overlay, overlays.arm9_overlays());
    assert_eq!(out, vec![(0usize, &b"OVL0"[..])]);
    assert_eq!(stop, Some(OverlayFileError::NotOverlayFile));
}

#[test]
fn file_table_entries_follow_records() {
    // Root's record gives first file id 1, sub's gives 2; sub's record
    // id comes from root's list.
    let rom = sample_rom();
    let table = load_table(&rom).unwrap();
    let entries = table.root().iter();
    match entries[0] {
        Entry::File(id) => assert_eq!(id.as_idx(), 1),
        Entry::Directory(_) => panic!("expected a file"),
    }
    let sub_id = match entries[1] {
        Entry::Directory(id) => id,
        Entry::File(_) => panic!("expected a directory"),
    };
    assert_eq!(sub_id.as_idx(), 1);
    match table.dir(sub_id).iter()[0] {
        Entry::File(id) => assert_eq!(id.as_idx(), 2),
        Entry::Directory(_) => panic!("expected a file"),
    }
}

#[test]
fn file_table_each_directory_named_once() {
    let rom = sample_rom();
    let table = load_table(&rom).unwrap();
    let mut named = vec![0usize; table.dir_count()];
    let mut todo = vec![table.root()];
    while let Some(dir) = todo.pop() {
        for e in dir.iter() {
            if let Entry::Directory(id) = e {
                named[id.as_idx()] += 1;
                todo.push(table.dir(id));
            }
        }
    }
    assert_eq!(named, vec![0, 1]);
}

#[test]
fn overlay_table_ignores_partial_entry() {
    let rom = sample_rom();
    let whole = load_overlays(&rom).unwrap();
    let mut trimmed = rom.clone();
    put32(&mut trimmed, 0x54, 0x20);
    let trimmed_table = load_overlays(&trimmed).unwrap();
    assert_eq!(
        format!("{:?}", whole.arm9_overlays()),
        format!("{:?}", trimmed_table.arm9_overlays())
    );
}

#[test]
fn overlay_table_ignores_entry_padding() {
    let rom = sample_rom();
    let plain = load_overlays(&rom).unwrap();
    let mut padded = rom.clone();
    for b in &mut padded[OVT + 26..OVT + 32] {
        *b = 0xff;
    }
    let padded_table = load_overlays(&padded).unwrap();
    assert_eq!(
        format!("{:?}", plain.arm9_overlays()),
        format!("{:?}", padded_table.arm9_overlays())
    );
}
