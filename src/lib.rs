//! Compress and decompress ELF32 relocation sections.
//!
//! A post-link tool turns a section of eight-byte relocation records into a
//! compact layout; a loader later walks that layout and gets back each
//! relocation's type and address.
//!
//! # Compact layout
//!
//! All fixed-size integers are little-endian; variable-length integers are
//! ULEB128.
//!
//! ```text
//! base_address : u32          offset of the first relocation
//! count        : u8           number of groups
//! groups[count]:
//!     relocation_type : u8
//!     count           : ULEB128 u32
//!     offsets[count]  : ULEB128 u32
//!         offsets[0] is relative to base_address,
//!         offsets[i + 1] to the address of offsets[i]
//! ```
//!
//! Groups come in ascending order of type; inside a group the relocations
//! keep the order of the input.
use vstd::prelude::*;

pub mod compress;
pub mod decompress;
pub mod endian;
pub mod error;
pub mod round_trip;
pub mod uleb128;

pub use compress::{Elf32Rel, Elf32Relocs};
pub use decompress::{elf32_relocate, elf32_relocate_with};
pub use error::{Error, ErrorKind};
pub use uleb128::{
    read_u16, read_u16_with, read_u32, read_u32_with, read_u8, read_u8_with, write_u16, write_u32,
    write_u8, Validation,
};

verus! {

} // verus!
