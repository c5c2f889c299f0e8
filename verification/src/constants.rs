//! Sizes, offsets and identifiers fixed by the archive format.

use vstd::prelude::*;

verus! {

/// Size in bytes of the archive header.
pub const PK2_FILE_HEADER_SIZE: usize = 256;

/// Size in bytes of one stored entry.
pub const PK2_FILE_ENTRY_SIZE: usize = 128;

/// Number of entries in one block.
pub const PK2_FILE_BLOCK_ENTRY_COUNT: usize = 20;

/// Size in bytes of one stored block.
pub const PK2_FILE_BLOCK_SIZE: usize = 2560;

/// Offset of the first block of the root directory, directly behind the header.
pub const PK2_ROOT_BLOCK: u64 = 256;

/// Chain identifier that stands for the root directory itself when it is
/// asked for by name.
pub const PK2_ROOT_BLOCK_VIRTUAL: u64 = 0;

/// Size in bytes of the name field of an entry, terminator included.
pub const PK2_NAME_FIELD_SIZE: usize = 81;

/// Longest name, in bytes, that an entry can hold.
pub const PK2_MAX_NAME_LEN: usize = 80;

/// Upper bound on the number of blocks that one chain may link.
pub const PK2_MAX_CHAIN_BLOCKS: usize = 1048576;

/// The signature that every archive starts with: the text
/// `JoyMax File Manager!`, a line feed, and zeros up to 30 bytes.
pub const PK2_SIGNATURE: [u8; 30] = [
    0x4a, 0x6f, 0x79, 0x4d, 0x61, 0x78, 0x20, 0x46, 0x69, 0x6c,
    0x65, 0x20, 0x4d, 0x61, 0x6e, 0x61, 0x67, 0x65, 0x72, 0x21,
    0x0a, 0x00, 0x00, 0x00, 0x00, 0x00, 0x00, 0x00, 0x00, 0x00,
];

/// The version that the header of a new archive carries.
pub const PK2_VERSION: u16 = 2;

/// The plain text whose encryption under the key of an archive is kept in
/// its header: `Joymax `, and a zero byte.
pub const PK2_CHECKSUM: [u8; 8] = [0x4a, 0x6f, 0x79, 0x6d, 0x61, 0x78, 0x20, 0x00];

/// Size in bytes of the signature.
pub const PK2_SIGNATURE_SIZE: usize = 30;

/// Size in bytes of the checksum field of the header.
pub const PK2_CHECKSUM_FIELD_SIZE: usize = 16;

} // verus!
