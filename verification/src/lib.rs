//! Readers for Nintendo DS ROM images: the cartridge header, the file
//! system tables, the overlay tables and the BLZ compression used for the
//! ARM9 binary.

pub mod blz;
pub mod bytes;
pub mod error;
pub mod header;
pub mod file_table;
pub mod overlay;
pub mod rom;
