use pk2::bytes::{push_u32_le, push_u64_le, read_u32_le, read_u64_le};
use pk2::constants::{PK2_ROOT_BLOCK, PK2_SIGNATURE};
use pk2::error::{Error, IoError};
use pk2::filetime::FILETIME;
use pk2::path::{check_root, components, is_text, join, to_text};
use pk2::raw::block_chain::PackBlock;
use pk2::raw::entry::{is_valid_name, PackEntry};
use pk2::raw::header::PackHeader;
use pk2::raw::ChainIndex;

fn encode(entry: &PackEntry) -> Vec<u8> {
    let mut out = Vec::new();
    entry.to_writer(&mut out);
    out
}

#[test]
fn empty_entry_is_128_zero_bytes() {
    let bytes = encode(&PackEntry::new_empty());
    assert_eq!(bytes, vec![0u8; 128]);
    assert_eq!(encode(&PackEntry::default()), vec![0u8; 128]);
}

#[test]
fn empty_entry_round_trip() {
    let entry = PackEntry::from_reader(&vec![0u8; 128]).unwrap();
    assert!(entry.is_empty());
    assert_eq!(entry.next_block(), None);
    assert!(entry.name().is_none());
}

#[test]
fn empty_entry_keeps_the_link_of_its_block() {
    let mut entry = PackEntry::new_empty();
    entry.set_next_block(0x0102_0304_0506_0708);
    let bytes = encode(&entry);
    assert_eq!(bytes[0], 0);
    assert_eq!(&bytes[118..126], &[0x08, 0x07, 0x06, 0x05, 0x04, 0x03, 0x02, 0x01]);
    let back = PackEntry::from_reader(&bytes).unwrap();
    assert!(back.is_empty());
    assert_eq!(back.next_block(), Some(0x0102_0304_0506_0708));
}

#[test]
fn file_entry_round_trip() {
    let entry = PackEntry::new_file(b"c.dat", 0x1122_3344_5566_7788, 0xAABB_CCDD, Some(4096));
    let bytes = encode(&entry);
    assert_eq!(bytes.len(), 128);
    let back = PackEntry::from_reader(&bytes).unwrap();
    let file = back.as_file().unwrap();
    assert_eq!(file.name(), b"c.dat");
    assert_eq!(file.position(), 0x1122_3344_5566_7788);
    assert_eq!(file.size(), 0xAABB_CCDD);
    assert_eq!(file.access_time(), FILETIME::default());
    assert_eq!(back.next_block(), Some(4096));
    assert!(back.is_file());
    assert!(!back.is_dir());
    assert_eq!(encode(&back), bytes);
}

#[test]
fn directory_entry_round_trip() {
    let entry = PackEntry::new_directory(b"textures", ChainIndex(2816), None);
    let bytes = encode(&entry);
    let back = PackEntry::from_reader(&bytes).unwrap();
    let dir = back.as_directory().unwrap();
    assert_eq!(dir.name(), b"textures");
    assert_eq!(dir.children_position(), ChainIndex(2816));
    assert!(dir.is_normal_link());
    assert_eq!(back.next_block(), None);
    assert!(back.as_file().is_none());
    assert_eq!(encode(&back), bytes);
}

#[test]
fn longest_name_round_trip() {
    let name = vec![b'n'; 80];
    assert!(is_valid_name(&name));
    let bytes = encode(&PackEntry::new_file(&name, 1, 2, None));
    assert_eq!(bytes[80], b'n');
    assert_eq!(bytes[81], 0);
    let back = PackEntry::from_reader(&bytes).unwrap();
    assert_eq!(back.name().unwrap(), &name[..]);
}

#[test]
fn names_that_no_entry_holds() {
    assert!(is_valid_name(b""));
    assert!(is_valid_name(b"a"));
    assert!(!is_valid_name(&vec![b'n'; 81]));
    assert!(!is_valid_name(b"a\0b"));
}

#[test]
fn file_entry_layout() {
    let entry = PackEntry::new_file(b"ab", 0x0807_0605_0403_0201, 0x0D0C_0B0A, Some(0x1817_1615_1413_1211));
    let bytes = encode(&entry);
    assert_eq!(bytes[0], 2);
    assert_eq!(&bytes[1..4], &[b'a', b'b', 0]);
    assert!(bytes[4..106].iter().all(|b| *b == 0));
    assert_eq!(&bytes[106..114], &[1, 2, 3, 4, 5, 6, 7, 8]);
    assert_eq!(&bytes[114..118], &[0x0A, 0x0B, 0x0C, 0x0D]);
    assert_eq!(&bytes[118..126], &[0x11, 0x12, 0x13, 0x14, 0x15, 0x16, 0x17, 0x18]);
    assert_eq!(&bytes[126..128], &[0, 0]);
}

#[test]
fn directory_entry_layout() {
    let bytes = encode(&PackEntry::current_dir(ChainIndex(256)));
    assert_eq!(bytes[0], 1);
    assert_eq!(&bytes[1..3], &[b'.', 0]);
    assert_eq!(&bytes[106..114], &[0, 1, 0, 0, 0, 0, 0, 0]);
    assert_eq!(&bytes[114..118], &[0, 0, 0, 0]);
    let bytes = encode(&PackEntry::parent_dir(ChainIndex(256)));
    assert_eq!(&bytes[1..4], &[b'.', b'.', 0]);
}

#[test]
fn stored_timestamps_are_read() {
    let mut bytes = encode(&PackEntry::new_file(b"t", 0, 0, None));
    bytes[82..90].copy_from_slice(&[1, 0, 0, 0, 2, 0, 0, 0]);
    bytes[90..98].copy_from_slice(&[3, 0, 0, 0, 4, 0, 0, 0]);
    bytes[98..106].copy_from_slice(&[0xEF, 0xCD, 0xAB, 0x89, 0x67, 0x45, 0x23, 0x01]);
    let entry = PackEntry::from_reader(&bytes).unwrap();
    let file = entry.as_file().unwrap();
    assert_eq!(file.access_time(), FILETIME { dwLowDateTime: 1, dwHighDateTime: 2 });
    assert_eq!(file.create_time(), FILETIME { dwLowDateTime: 3, dwHighDateTime: 4 });
    assert_eq!(
        file.modify_time(),
        FILETIME { dwLowDateTime: 0x89AB_CDEF, dwHighDateTime: 0x0123_4567 }
    );
    assert_eq!(encode(&entry), bytes);
}

#[test]
fn unknown_kind_is_corrupt() {
    let mut bytes = vec![0u8; 128];
    bytes[0] = 3;
    assert_eq!(PackEntry::from_reader(&bytes).err(), Some(Error::Corrupt));
    bytes[0] = 255;
    assert_eq!(PackEntry::from_reader(&bytes).err(), Some(Error::Corrupt));
}

#[test]
fn name_without_end_is_corrupt() {
    let mut bytes = vec![0u8; 128];
    bytes[0] = 2;
    for b in bytes[1..82].iter_mut() {
        *b = b'x';
    }
    assert_eq!(PackEntry::from_reader(&bytes).err(), Some(Error::Corrupt));
    bytes[81] = 0;
    assert!(PackEntry::from_reader(&bytes).is_ok());
}

#[test]
fn short_entry_is_an_early_end() {
    assert_eq!(
        PackEntry::from_reader(&vec![0u8; 127]).err(),
        Some(Error::Io(IoError::UnexpectedEof))
    );
    assert_eq!(PackEntry::from_reader(&[]).err(), Some(Error::Io(IoError::UnexpectedEof)));
}

#[test]
fn entry_is_read_from_the_front() {
    let mut bytes = encode(&PackEntry::new_file(b"front", 7, 9, None));
    bytes.extend_from_slice(&[0xFF; 40]);
    let entry = PackEntry::from_reader(&bytes).unwrap();
    assert_eq!(entry.name().unwrap(), b"front");
}

#[test]
fn clearing_keeps_the_link() {
    let mut entry = PackEntry::new_file(b"gone", 5, 6, Some(7680));
    entry.clear();
    assert!(entry.is_empty());
    assert_eq!(entry.next_block(), Some(7680));
    let mut entry = PackEntry::new_file(b"gone", 5, 6, None);
    entry.clear();
    assert_eq!(encode(&entry), vec![0u8; 128]);
}

#[test]
fn entry_predicates() {
    let file = PackEntry::new_file(b"x", 0, 0, None);
    assert!(file.has_name(b"x"));
    assert!(!file.has_name(b"X"));
    assert!(!file.has_name(b"xy"));
    assert!(!PackEntry::new_empty().has_name(b""));
    let dot = PackEntry::current_dir(ChainIndex(256));
    assert!(dot.as_directory().unwrap().is_current_link());
    assert!(!dot.as_directory().unwrap().is_normal_link());
    let up = PackEntry::parent_dir(ChainIndex(256));
    assert!(up.as_directory().unwrap().is_parent_link());
    assert!(!up.as_directory().unwrap().is_normal_link());
    let copy = file.clone();
    assert_eq!(copy.name().unwrap(), b"x");
}

#[test]
fn block_round_trip() {
    let mut block = PackBlock::new(PK2_ROOT_BLOCK);
    *block.get_mut(0).unwrap() = PackEntry::current_dir(ChainIndex(PK2_ROOT_BLOCK));
    *block.get_mut(7).unwrap() = PackEntry::new_file(b"seven", 70, 7, None);
    *block.get_mut(19).unwrap() = PackEntry::new_directory(b"last", ChainIndex(5376), Some(2816));
    let mut bytes = Vec::new();
    block.to_writer(&mut bytes);
    assert_eq!(bytes.len(), 2560);
    assert_eq!(bytes[0], 1);
    assert_eq!(bytes[7 * 128], 2);
    assert_eq!(bytes[128], 0);
    let back = PackBlock::from_reader(&bytes, PK2_ROOT_BLOCK).unwrap();
    assert_eq!(back.offset(), 256);
    assert_eq!(back.entries().len(), 20);
    assert!(back.get(0).unwrap().is_dir());
    assert!(back.get(1).unwrap().is_empty());
    assert_eq!(back.get(7).unwrap().name().unwrap(), b"seven");
    assert_eq!(back.get(19).unwrap().next_block(), Some(2816));
    assert!(back.get(20).is_none());
    let mut again = Vec::new();
    back.to_writer(&mut again);
    assert_eq!(again, bytes);
    let copy = back.clone();
    assert_eq!(copy.get(7).unwrap().name().unwrap(), b"seven");
}

#[test]
fn new_block_is_2560_zero_bytes() {
    let block = PackBlock::new(4096);
    let mut bytes = Vec::new();
    block.to_writer(&mut bytes);
    assert_eq!(bytes, vec![0u8; 2560]);
    assert_eq!(block.offset(), 4096);
}

#[test]
fn short_block_is_an_early_end() {
    assert_eq!(
        PackBlock::from_reader(&vec![0u8; 2559], 256).err(),
        Some(Error::Io(IoError::UnexpectedEof))
    );
}

#[test]
fn block_with_a_bad_entry_is_corrupt() {
    let mut bytes = vec![0u8; 2560];
    bytes[19 * 128] = 9;
    assert_eq!(PackBlock::from_reader(&bytes, 256).err(), Some(Error::Corrupt));
}

#[test]
fn header_round_trip() {
    let header = PackHeader::default();
    let mut bytes = Vec::new();
    header.to_writer(&mut bytes);
    assert_eq!(bytes.len(), 256);
    assert_eq!(&bytes[0..30], &PK2_SIGNATURE[..]);
    assert_eq!(&bytes[0..21], b"JoyMax File Manager!\n");
    assert_eq!(&bytes[30..32], &[2, 0]);
    assert_eq!(bytes[32], 0);
    assert!(bytes[33..].iter().all(|b| *b == 0));
    let back = PackHeader::from_reader(&bytes).unwrap();
    assert!(!back.encrypted());
    assert_eq!(back.version(), 2);
    assert_eq!(back.validate_sig(), Ok(()));
    assert_eq!(back.verify(&[0u8; 16]), Ok(()));
    assert_eq!(back.verify(&[1u8; 16]), Err(Error::InvalidKey));
    assert_eq!(back.verify(&[0u8; 8]), Err(Error::InvalidKey));
}

#[test]
fn header_fields_are_read_where_they_lie() {
    let mut bytes = vec![0u8; 256];
    bytes[30] = 0x34;
    bytes[31] = 0x12;
    bytes[32] = 1;
    bytes[33] = 0xAA;
    bytes[48] = 0xBB;
    let header = PackHeader::from_reader(&bytes).unwrap();
    assert_eq!(header.version(), 0x1234);
    assert!(header.encrypted());
    assert_eq!(header.validate_sig(), Err(Error::InvalidSignature));
    let mut sum = [0u8; 16];
    sum[0] = 0xAA;
    sum[15] = 0xBB;
    assert_eq!(header.verify(&sum), Ok(()));
}

#[test]
fn short_header_is_an_early_end() {
    assert_eq!(
        PackHeader::from_reader(&vec![0u8; 255]).err(),
        Some(Error::Io(IoError::UnexpectedEof))
    );
}

#[test]
fn integers_are_little_endian() {
    let mut out = vec![0xEE];
    push_u32_le(&mut out, 0x0403_0201);
    push_u64_le(&mut out, 0x0C0B_0A09_0807_0605);
    assert_eq!(out, vec![0xEE, 1, 2, 3, 4, 5, 6, 7, 8, 9, 10, 11, 12]);
    assert_eq!(read_u32_le(&out, 1), 0x0403_0201);
    assert_eq!(read_u64_le(&out, 5), 0x0C0B_0A09_0807_0605);
    let mut out = Vec::new();
    push_u64_le(&mut out, u64::MAX);
    push_u32_le(&mut out, 0);
    assert_eq!(read_u64_le(&out, 0), u64::MAX);
    assert_eq!(read_u32_le(&out, 8), 0);
}

#[test]
fn paths_split_into_names() {
    assert_eq!(components(b"a/b/c.dat"), vec![b"a".to_vec(), b"b".to_vec(), b"c.dat".to_vec()]);
    assert_eq!(components(b""), Vec::<Vec<u8>>::new());
    assert_eq!(components(b"/"), Vec::<Vec<u8>>::new());
    assert_eq!(components(b"a/"), vec![b"a".to_vec()]);
    assert_eq!(components(b"a//b"), vec![b"a".to_vec(), b"b".to_vec()]);
    assert_eq!(components(b"./a/./b/."), vec![b"a".to_vec(), b"b".to_vec()]);
    assert_eq!(
        components(b"x/y/z/../.."),
        vec![b"x".to_vec(), b"y".to_vec(), b"z".to_vec(), b"..".to_vec(), b"..".to_vec()]
    );
    assert_eq!(components(b"..."), vec![b"...".to_vec()]);
    assert_eq!(components(b".a"), vec![b".a".to_vec()]);
}

#[test]
fn paths_start_at_the_root() {
    assert_eq!(check_root(b"/a/b"), Ok(&b"a/b"[..]));
    assert_eq!(check_root(b"/"), Ok(&b""[..]));
    assert_eq!(check_root(b""), Err(Error::InvalidPath));
    assert_eq!(check_root(b"a/b"), Err(Error::InvalidPath));
    assert_eq!(check_root(b"//a"), Ok(&b"/a"[..]));
}

#[test]
fn names_join_paths() {
    assert_eq!(join(b"", b"a"), b"a".to_vec());
    assert_eq!(join(b"a", b"b"), b"a/b".to_vec());
    assert_eq!(join(b"a/b", b"c.dat"), b"a/b/c.dat".to_vec());
}

#[test]
fn bytes_that_are_text() {
    assert!(is_text(b""));
    assert!(is_text(b"plain.txt"));
    assert!(is_text("\u{d55c}\u{ae00}".as_bytes()));
    assert!(is_text(&[0xF0, 0x9F, 0x98, 0x80]));
    assert!(!is_text(&[0xFF]));
    assert!(!is_text(&[0xC0, 0x80]));
    assert!(!is_text(&[0xED, 0xA0, 0x80]));
    assert!(!is_text(&[b'a', 0xE2, 0x82]));
}

#[test]
fn bytes_become_text() {
    assert_eq!(to_text(b"a/b.txt".to_vec()), Ok(String::from("a/b.txt")));
    assert_eq!(to_text(Vec::new()), Ok(String::new()));
    assert_eq!(to_text(vec![0xE2, 0x82, 0xAC]), Ok(String::from("\u{20AC}")));
    assert_eq!(to_text(vec![0xFF]), Err(Error::NonUnicodePath));
    assert_eq!(to_text(vec![b'a', 0xC3]), Err(Error::NonUnicodePath));
}
