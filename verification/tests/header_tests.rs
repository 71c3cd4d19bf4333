use nds_util::error::LoadError;
use nds_util::header::{NdsHeader, HEADER_LEN};

fn sample_header() -> Vec<u8> {
    let mut h: Vec<u8> = (0..HEADER_LEN).map(|i| i as u8).collect();
    h[0..12].copy_from_slice(b"POKEMON TEST");
    h[12..16].copy_from_slice(b"ABCD");
    h
}

#[test]
fn header_load_fields() {
    let rom = sample_header();
    let h = NdsHeader::load(&rom).unwrap();
    assert_eq!(&h.title, b"POKEMON TEST");
    assert_eq!(&h.game_code, b"ABCD");
    assert_eq!(h.creator_code, [0x10, 0x11]);
    assert_eq!(h.unit_code, 0x12);
    assert_eq!(h.encryption_seed, 0x13);
    assert_eq!(h.capacity, 0x17161514);
    assert_eq!(h.version, 0x1e);
    assert_eq!(h.auto_start, 0x1f);
    assert_eq!(h.arm9_rom_offset, 0x23222120);
    assert_eq!(h.arm9_entry_address, 0x27262524);
    assert_eq!(h.arm9_ram_address, 0x2b2a2928);
    assert_eq!(h.arm9_size, 0x2f2e2d2c);
    assert_eq!(h.arm7_rom_offset, 0x33323130);
    assert_eq!(h.arm7_entry_address, 0x37363534);
    assert_eq!(h.arm7_ram_address, 0x3b3a3938);
    assert_eq!(h.arm7_size, 0x3f3e3d3c);
    assert_eq!(h.file_table_offset, 0x43424140);
    assert_eq!(h.file_table_size, 0x47464544);
    assert_eq!(h.file_alloc_offset, 0x4b4a4948);
    assert_eq!(h.file_alloc_size, 0x4f4e4d4c);
    assert_eq!(h.arm9_overlay_offset, 0x53525150);
    assert_eq!(h.arm9_overlay_size, 0x57565554);
    assert_eq!(h.arm7_overlay_offset, 0x5b5a5958);
    assert_eq!(h.arm7_overlay_size, 0x5f5e5d5c);
    assert_eq!(h.command_port_normal, 0x63626160);
    assert_eq!(h.command_port_key1, 0x67666564);
    assert_eq!(h.icon_title_offset, 0x6b6a6968);
    assert_eq!(h.secure_checksum, 0x6d6c);
    assert_eq!(h.secure_loading_timeout, 0x6f6e);
    assert_eq!(h.arm9_auto_load, 0x73727170);
    assert_eq!(h.arm7_auto_load, 0x77767574);
    assert_eq!(h.secure_area_disable, 0x7f7e7d7c7b7a7978);
    assert_eq!(h.used_size, 0x83828180);
    assert_eq!(h.header_size, 0x87868584);
}

#[test]
fn header_load_ignores_trailing_bytes() {
    let mut rom = sample_header();
    rom.extend(vec![0xffu8; 100]);
    let h = NdsHeader::load(&rom).unwrap();
    assert_eq!(h.header_size, 0x87868584);
}

#[test]
fn header_load_short_title() {
    let rom = vec![0u8; 10];
    assert_eq!(NdsHeader::load(&rom).unwrap_err(), LoadError::UnexpectedEof);
}

#[test]
fn header_load_ends_after_reserved_bytes() {
    let rom = vec![0u8; 30];
    assert_eq!(NdsHeader::load(&rom).unwrap_err(), LoadError::UnexpectedEof);
}

#[test]
fn header_load_one_byte_short() {
    let rom = sample_header();
    assert_eq!(NdsHeader::load(&rom[..HEADER_LEN - 1]).unwrap_err(), LoadError::UnexpectedEof);
}
