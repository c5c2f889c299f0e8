use pk2::archive::fs::DirEntry;
use pk2::archive::Pk2;
use pk2::error::{Error, IoError};
use pk2::io::{read_block_at, write_block, Stream};
use pk2::raw::entry::PackEntry;
use pk2::raw::ChainIndex;

const ROOT: ChainIndex = ChainIndex(256);

fn fresh(key: &[u8]) -> Pk2 {
    Pk2::create_new_in(Stream::new(), key).unwrap()
}

fn paths(archive: &Pk2, base: &str) -> Vec<String> {
    archive.for_each_file(base).unwrap().into_iter().map(|(path, _)| path).collect()
}

#[test]
fn unencrypted_create() {
    let mut archive = fresh(b"");
    archive.create_file("/hello.txt").unwrap();
    let stream = archive.into_inner();
    let archive = Pk2::open_in(stream, b"").unwrap();
    let files = archive.for_each_file("/").unwrap();
    assert_eq!(files.len(), 1);
    assert_eq!(files[0].0, "hello.txt");
    assert_eq!(files[0].1.name(), b"hello.txt");
    assert_eq!(files[0].1.size(), 0);
    assert_eq!(files[0].1.position(), 0);
}

#[test]
fn encrypted_round_trip() {
    let mut archive = fresh(b"secret");
    archive.create_file("/a/b/c.bin").unwrap();
    let bytes = archive.into_inner().into_vec();
    let reopened = Pk2::open_in(Stream::from_vec(bytes.clone()), b"secret").unwrap();
    assert_eq!(paths(&reopened, "/"), vec!["a/b/c.bin"]);
    assert!(reopened.open_file("/a/b/c.bin").is_ok());
    assert_eq!(
        Pk2::open_in(Stream::from_vec(bytes.clone()), b"Secret").err(),
        Some(Error::InvalidKey)
    );
    assert_eq!(Pk2::open_in(Stream::from_vec(bytes.clone()), b"").err(), Some(Error::InvalidKey));
    assert_eq!(
        Pk2::open_in(Stream::from_vec(bytes), b"secret and more").err(),
        Some(Error::InvalidKey)
    );
}

#[test]
fn block_growth() {
    let mut archive = fresh(b"");
    for i in 0..21 {
        archive.create_file(&format!("/f{}.dat", i)).unwrap();
    }
    let root = archive.get_chain(ROOT).unwrap();
    assert_eq!(root.num_blocks(), 2);
    let second = root.file_offset_for_entry(20).unwrap();
    assert_eq!(root.get(19).unwrap().next_block(), Some(second));
    assert_eq!(second, 256 + 2560);
    assert_eq!(root.get(19).unwrap().name().unwrap(), b"f18.dat");
    assert_eq!(root.get(20).unwrap().name().unwrap(), b"f19.dat");
    assert_eq!(root.get(21).unwrap().name().unwrap(), b"f20.dat");
    assert!(root.get(22).unwrap().is_empty());
    assert_eq!(root.get(39).unwrap().next_block(), None);
    // and the stream says the same
    let archive = Pk2::open_in(archive.into_inner(), b"").unwrap();
    let root = archive.get_chain(ROOT).unwrap();
    assert_eq!(root.num_blocks(), 2);
    assert_eq!(root.get(19).unwrap().next_block(), Some(2816));
    assert_eq!(archive.for_each_file("/").unwrap().len(), 21);
    assert!(archive.open_file("/f20.dat").is_ok());
}

#[test]
fn block_growth_in_an_encrypted_directory() {
    let mut archive = fresh(b"secret");
    for i in 0..45 {
        archive.create_file(&format!("/dir/f{}.dat", i)).unwrap();
    }
    let archive = Pk2::open_in(archive.into_inner(), b"secret").unwrap();
    let dir = archive.open_directory("/dir").unwrap();
    let chain = archive.get_chain(dir.pos_children()).unwrap();
    // `.` and `..` and 45 files take 47 slots: three blocks
    assert_eq!(chain.num_blocks(), 3);
    assert_eq!(archive.for_each_file("/dir").unwrap().len(), 45);
    assert_eq!(archive.open_file("/dir/f44.dat").unwrap().entry_index(), 46);
}

#[test]
fn deep_directories_on_demand() {
    let mut archive = fresh(b"");
    archive.create_file("/x/y/z/leaf").unwrap();
    assert!(archive.open_directory("/x").is_ok());
    assert!(archive.open_directory("/x/y").is_ok());
    assert!(archive.open_directory("/x/y/z").is_ok());
    let leaf = archive.open_file("/x/y/z/leaf").unwrap();
    assert_eq!(leaf.size(), 0);
    assert_eq!(leaf.name(), b"leaf");
    assert_eq!(archive.open_file("/x").err(), Some(Error::ExpectedFile));
    assert_eq!(archive.open_directory("/x/y/z/leaf").err(), Some(Error::ExpectedDirectory));
    assert_eq!(archive.chain_count(), 4);
}

#[test]
fn parent_dir_traversal() {
    let mut archive = fresh(b"");
    archive.create_file("/x/y/z/leaf").unwrap();
    let up = archive.open_directory("/x/y/z/../..").unwrap();
    let x = archive.open_directory("/x").unwrap();
    assert_eq!(up.pos_children(), x.pos_children());
    assert_eq!(x.name(), b"x");
    assert_eq!(up.name(), b"..");
    let y = archive.open_directory("/x/y").unwrap();
    assert_eq!(up.chain(), y.pos_children());
    assert_eq!(up.entry_index(), 1);
    assert!(archive.open_file("/x/y/z/../z/leaf").is_ok());
    assert!(archive.open_file("/x/y/../y/./z/leaf").is_ok());
}

#[test]
fn delete_tombstone() {
    let mut archive = fresh(b"");
    archive.create_file("/hello.txt").unwrap();
    let before = archive.stream().len();
    assert_eq!(archive.delete_file("/hello.txt"), Ok(()));
    assert_eq!(archive.open_file("/hello.txt").err(), Some(Error::NotFound));
    assert_eq!(archive.stream().len(), before);
    assert!(archive.get_entry(ROOT, 1).unwrap().is_empty());
    // the slot is zero in the stream
    let slot = &archive.stream().as_slice()[256 + 128..256 + 256];
    assert!(slot.iter().all(|b| *b == 0));
    let archive = Pk2::open_in(archive.into_inner(), b"").unwrap();
    assert_eq!(archive.open_file("/hello.txt").err(), Some(Error::NotFound));
    assert!(archive.for_each_file("/").unwrap().is_empty());
}

#[test]
fn deleting_the_last_entry_of_a_block_keeps_the_chain() {
    let mut archive = fresh(b"");
    for i in 0..21 {
        archive.create_file(&format!("/f{}.dat", i)).unwrap();
    }
    assert_eq!(archive.delete_file("/f18.dat"), Ok(()));
    let entry = archive.get_entry(ROOT, 19).unwrap();
    assert!(entry.is_empty());
    assert_eq!(entry.next_block(), Some(2816));
    let mut archive = Pk2::open_in(archive.into_inner(), b"").unwrap();
    assert!(archive.open_file("/f20.dat").is_ok());
    assert_eq!(archive.get_chain(ROOT).unwrap().num_blocks(), 2);
    // the slot is taken again
    assert_eq!(archive.create_file("/again").unwrap().entry_index(), 19);
    assert_eq!(archive.get_entry(ROOT, 19).unwrap().next_block(), Some(2816));
}

#[test]
fn deleting_what_is_not_a_file() {
    let mut archive = fresh(b"");
    archive.create_file("/d/f").unwrap();
    assert_eq!(archive.delete_file("/d"), Err(Error::ExpectedFile));
    assert_eq!(archive.delete_file("/none"), Err(Error::NotFound));
    assert_eq!(archive.delete_file("d/f"), Err(Error::InvalidPath));
    assert_eq!(archive.delete_file("/"), Err(Error::InvalidPath));
    assert_eq!(archive.delete_file("/d/f"), Ok(()));
    assert_eq!(archive.delete_file("/d/f"), Err(Error::NotFound));
    assert!(archive.open_directory("/d").is_ok());
}

#[test]
fn root_of_a_new_archive() {
    for key in [&b""[..], &b"secret"[..]] {
        let archive = fresh(key);
        assert_eq!(archive.chain_count(), 1);
        let root = archive.get_chain(ROOT).unwrap();
        assert_eq!(root.num_blocks(), 1);
        assert_eq!(root.chain_index(), ROOT);
        let dot = root.get(0).unwrap().as_directory().unwrap();
        assert_eq!(dot.name(), b".");
        assert_eq!(dot.children_position(), ROOT);
        for i in 1..20 {
            assert!(root.get(i).unwrap().is_empty());
        }
        assert_eq!(archive.stream().len(), 256 + 2560);
        assert!(archive.for_each_file("/").unwrap().is_empty());
    }
}

#[test]
fn image_of_a_new_archive() {
    let archive = fresh(b"");
    let bytes = archive.into_inner().into_vec();
    assert_eq!(&bytes[0..21], b"JoyMax File Manager!\n");
    assert_eq!(bytes[32], 0);
    assert_eq!(bytes[256], 1);
    assert_eq!(bytes[257], b'.');
    assert_eq!(&bytes[256 + 106..256 + 114], &[0, 1, 0, 0, 0, 0, 0, 0]);
    assert!(bytes[256 + 128..].iter().all(|b| *b == 0));
    let archive = fresh(b"secret");
    let bytes = archive.into_inner().into_vec();
    assert_eq!(bytes[32], 1);
    assert_eq!(&bytes[33..41], &[0x69, 0x39, 0xc1, 0x1a, 0x7f, 0xd4, 0xca, 0x4f]);
    assert_ne!(bytes[256], 1);
}

#[test]
fn creating_replaces_what_the_stream_held() {
    let archive = Pk2::create_new_in(Stream::from_vec(vec![0xCC; 10_000]), b"").unwrap();
    assert_eq!(archive.stream().len(), 2816);
    assert_eq!(archive.into_inner().into_vec(), fresh(b"").into_inner().into_vec());
}

#[test]
fn keys_at_creation() {
    assert_eq!(Pk2::create_new_in(Stream::new(), b"abc").err(), Some(Error::InvalidKey));
    assert_eq!(Pk2::create_new_in(Stream::new(), &[1u8; 57]).err(), Some(Error::InvalidKey));
    assert!(Pk2::create_new_in(Stream::new(), b"abcd").is_ok());
}

#[test]
fn opening_with_the_key_of_creation() {
    for key in [&b""[..], &b"abcd"[..], &b"secret"[..], &[9u8; 56][..]] {
        let stream = fresh(key).into_inner();
        let archive = Pk2::open_in(stream, key).unwrap();
        assert_eq!(archive.chain_count(), 1);
    }
}

#[test]
fn opening_with_another_key() {
    let bytes = fresh(b"secret").into_inner().into_vec();
    for other in [&b"secres"[..], &b"SECRET"[..], &b"secret "[..], &b"1234"[..]] {
        assert_eq!(
            Pk2::open_in(Stream::from_vec(bytes.clone()), other).err(),
            Some(Error::InvalidKey)
        );
    }
    for other in [&b""[..], &b"sec"[..], &[1u8; 60][..]] {
        assert_eq!(
            Pk2::open_in(Stream::from_vec(bytes.clone()), other).err(),
            Some(Error::InvalidKey)
        );
    }
    // the key taken twice gives the same subkeys, and opens the archive
    assert!(Pk2::open_in(Stream::from_vec(bytes), b"secretsecret").is_ok());
}

#[test]
fn the_key_of_a_plain_archive_is_not_looked_at() {
    let bytes = fresh(b"").into_inner().into_vec();
    assert!(Pk2::open_in(Stream::from_vec(bytes.clone()), b"secret").is_ok());
    assert!(Pk2::open_in(Stream::from_vec(bytes), b"x").is_ok());
}

#[test]
fn opening_what_is_no_archive() {
    assert_eq!(
        Pk2::open_in(Stream::new(), b"").err(),
        Some(Error::Io(IoError::UnexpectedEof))
    );
    assert_eq!(
        Pk2::open_in(Stream::from_vec(vec![0; 255]), b"").err(),
        Some(Error::Io(IoError::UnexpectedEof))
    );
    assert_eq!(
        Pk2::open_in(Stream::from_vec(vec![0; 4096]), b"").err(),
        Some(Error::InvalidSignature)
    );
    let mut bytes = fresh(b"").into_inner().into_vec();
    bytes[5] ^= 1;
    assert_eq!(Pk2::open_in(Stream::from_vec(bytes), b"").err(), Some(Error::InvalidSignature));
    let mut bytes = fresh(b"").into_inner().into_vec();
    bytes.truncate(2000);
    assert_eq!(
        Pk2::open_in(Stream::from_vec(bytes), b"").err(),
        Some(Error::Io(IoError::UnexpectedEof))
    );
    let mut bytes = fresh(b"").into_inner().into_vec();
    bytes[256 + 5 * 128] = 77;
    assert_eq!(Pk2::open_in(Stream::from_vec(bytes), b"").err(), Some(Error::Corrupt));
}

#[test]
fn a_chain_that_leads_into_itself() {
    let mut stream = fresh(b"").into_inner();
    let mut block = read_block_at(None, &stream, 256).unwrap();
    block.get_mut(19).unwrap().set_next_block(256);
    write_block(None, &mut stream, 256, &block).unwrap();
    assert_eq!(Pk2::open_in(stream, b"").err(), Some(Error::MalformedChain));
}

#[test]
fn a_chain_that_leads_out_of_the_archive() {
    let mut stream = fresh(b"").into_inner();
    let mut block = read_block_at(None, &stream, 256).unwrap();
    block.get_mut(19).unwrap().set_next_block(1_000_000);
    write_block(None, &mut stream, 256, &block).unwrap();
    assert_eq!(Pk2::open_in(stream, b"").err(), Some(Error::Io(IoError::UnexpectedEof)));
}

#[test]
fn two_directories_with_one_chain() {
    let mut archive = fresh(b"");
    archive.create_file("/a/x").unwrap();
    let child = archive.open_directory("/a").unwrap().pos_children();
    let mut stream = archive.into_inner();
    let mut block = read_block_at(None, &stream, 256).unwrap();
    *block.get_mut(5).unwrap() = PackEntry::new_directory(b"b", child, None);
    write_block(None, &mut stream, 256, &block).unwrap();
    assert_eq!(Pk2::open_in(stream, b"").err(), Some(Error::Corrupt));
}

#[test]
fn a_directory_that_holds_the_root() {
    let mut stream = fresh(b"").into_inner();
    let mut block = read_block_at(None, &stream, 256).unwrap();
    *block.get_mut(3).unwrap() = PackEntry::new_directory(b"loop", ROOT, None);
    write_block(None, &mut stream, 256, &block).unwrap();
    assert_eq!(Pk2::open_in(stream, b"").err(), Some(Error::Corrupt));
}

#[test]
fn a_directory_without_a_chain() {
    let mut stream = fresh(b"").into_inner();
    let mut block = read_block_at(None, &stream, 256).unwrap();
    *block.get_mut(3).unwrap() = PackEntry::new_directory(b"lost", ChainIndex(50_000), None);
    write_block(None, &mut stream, 256, &block).unwrap();
    assert_eq!(Pk2::open_in(stream, b"").err(), Some(Error::Io(IoError::UnexpectedEof)));
}

#[test]
fn names_that_are_no_text() {
    let mut stream = fresh(b"").into_inner();
    let mut block = read_block_at(None, &stream, 256).unwrap();
    *block.get_mut(1).unwrap() = PackEntry::new_file(b"fine", 0, 0, None);
    *block.get_mut(2).unwrap() = PackEntry::new_file(&[0xB0, 0xA1, 0xFF], 0, 0, None);
    write_block(None, &mut stream, 256, &block).unwrap();
    let archive = Pk2::open_in(stream, b"").unwrap();
    assert_eq!(archive.for_each_file("/").err(), Some(Error::NonUnicodePath));
    assert_eq!(archive.get_entry(ROOT, 2).unwrap().name().unwrap(), &[0xB0, 0xA1, 0xFF]);
    assert!(archive.open_file("/fine").is_ok());
}

#[test]
fn create_then_resolve() {
    for path in ["/a/b/c.dat", "/c.dat", "/a/c.dat", "/a/b/c/d/e/f/g/c.dat", "//a///b/c.dat/"] {
        for key in [&b""[..], &b"secret"[..]] {
            let mut archive = fresh(key);
            let created = archive.create_file(path).unwrap();
            let place = (created.chain(), created.entry_index());
            assert_eq!(created.name(), b"c.dat");
            assert_eq!(created.size(), 0);
            assert_eq!(created.position(), 0);
            let file = archive.open_file(path).unwrap();
            assert_eq!(file.name(), b"c.dat");
            assert_eq!((file.chain(), file.entry_index()), place);
            let archive = Pk2::open_in(archive.into_inner(), key).unwrap();
            let file = archive.open_file(path).unwrap();
            assert_eq!(file.name(), b"c.dat");
            assert_eq!((file.chain(), file.entry_index()), place);
        }
    }
}

#[test]
fn created_files_have_no_times() {
    let mut archive = fresh(b"");
    archive.create_file("/t").unwrap();
    let file = archive.open_file("/t").unwrap();
    assert_eq!(file.modify_time(), Err(Error::TimestampOutOfRange));
    assert_eq!(file.access_time(), Err(Error::TimestampOutOfRange));
    assert_eq!(file.create_time(), Err(Error::TimestampOutOfRange));
}

#[test]
fn new_directories_name_their_parents() {
    let mut archive = fresh(b"secret");
    archive.create_file("/a/b/c/file").unwrap();
    archive.create_file("/a/d/file").unwrap();
    let root = archive.open_directory("/").unwrap().pos_children();
    assert_eq!(root, ROOT);
    let a = archive.open_directory("/a").unwrap().pos_children();
    let b = archive.open_directory("/a/b").unwrap().pos_children();
    let c = archive.open_directory("/a/b/c").unwrap().pos_children();
    let d = archive.open_directory("/a/d").unwrap().pos_children();
    for (chain, parent) in [(a, root), (b, a), (c, b), (d, a)] {
        let found = archive.get_chain(chain).unwrap();
        assert_eq!(found.chain_index(), chain);
        let dot = found.get(0).unwrap().as_directory().unwrap();
        assert_eq!(dot.name(), b".");
        assert_eq!(dot.children_position(), chain);
        let up = found.get(1).unwrap().as_directory().unwrap();
        assert_eq!(up.name(), b"..");
        assert_eq!(up.children_position(), parent);
    }
    assert_eq!(archive.get_chain(root).unwrap().position_of(b".."), None);
    assert_eq!(archive.chain_count(), 5);
}

#[test]
fn new_chains_lie_at_the_end_of_the_stream() {
    let mut archive = fresh(b"");
    assert_eq!(archive.stream().len(), 2816);
    archive.create_file("/a/f").unwrap();
    assert_eq!(archive.stream().len(), 2816 + 2560);
    assert_eq!(archive.open_directory("/a").unwrap().pos_children(), ChainIndex(2816));
    archive.create_file("/a/g").unwrap();
    assert_eq!(archive.stream().len(), 2816 + 2560);
    archive.create_file("/b/c/f").unwrap();
    assert_eq!(archive.stream().len(), 2816 + 3 * 2560);
    assert_eq!(archive.open_directory("/b").unwrap().pos_children(), ChainIndex(2816 + 2560));
    assert_eq!(archive.open_directory("/b/c").unwrap().pos_children(), ChainIndex(2816 + 5120));
}

#[test]
fn creating_what_exists() {
    let mut archive = fresh(b"");
    archive.create_file("/d/f").unwrap();
    assert_eq!(archive.create_file("/d").err(), Some(Error::AlreadyExists));
    assert_eq!(archive.create_file("/d/.").err(), Some(Error::AlreadyExists));
    assert_eq!(archive.create_file("/d/f").err(), Some(Error::AlreadyExists));
    assert_eq!(archive.create_file("/d/../d/f").err(), Some(Error::AlreadyExists));
    assert_eq!(archive.create_file("/d/f/g").err(), Some(Error::ExpectedDirectory));
    assert_eq!(archive.for_each_file("/").unwrap().len(), 1);
}

#[test]
fn paths_that_cannot_be_created() {
    let mut archive = fresh(b"");
    assert_eq!(archive.create_file("").err(), Some(Error::InvalidPath));
    assert_eq!(archive.create_file("/").err(), Some(Error::InvalidPath));
    assert_eq!(archive.create_file("/.").err(), Some(Error::InvalidPath));
    assert_eq!(archive.create_file("a").err(), Some(Error::InvalidPath));
    assert_eq!(archive.create_file("/..").err(), Some(Error::InvalidPath));
    assert_eq!(archive.create_file("/a/..").err(), Some(Error::InvalidPath));
    assert_eq!(archive.create_file("/../a").err(), Some(Error::InvalidPath));
    assert_eq!(archive.create_file("/a/../../b").err(), Some(Error::InvalidPath));
    let long = format!("/{}", "n".repeat(81));
    assert_eq!(archive.create_file(&long).err(), Some(Error::InvalidPath));
    let long_dir = format!("/{}/f", "n".repeat(81));
    assert_eq!(archive.create_file(&long_dir).err(), Some(Error::InvalidPath));
    assert_eq!(archive.create_file("/a\0b").err(), Some(Error::InvalidPath));
    // what was created on the way to a failure stays
    assert!(archive.open_directory("/a").is_ok());
    assert!(archive.for_each_file("/").unwrap().is_empty());
    assert_eq!(archive.chain_count(), 2);
    assert_eq!(archive.stream().len(), 2816 + 2560);
    let longest = format!("/{}", "n".repeat(80));
    assert!(archive.create_file(&longest).is_ok());
}

#[test]
fn parent_names_in_the_path_of_a_new_file() {
    let mut archive = fresh(b"");
    archive.create_file("/a/../b").unwrap();
    assert!(archive.open_directory("/a").is_ok());
    assert!(archive.open_file("/b").is_ok());
    archive.create_file("/a/x/../y").unwrap();
    assert!(archive.open_directory("/a/x").is_ok());
    assert!(archive.open_file("/a/y").is_ok());
    assert_eq!(paths(&archive, "/"), vec!["b", "a/y"]);
}

#[test]
fn files_are_met_before_directories_and_late_directories_first() {
    let mut archive = fresh(b"");
    for path in ["/a/f1", "/b/f2", "/top", "/a/c/f3", "/a/f4", "/b/d/e/f5", "/last"] {
        archive.create_file(path).unwrap();
    }
    assert_eq!(
        paths(&archive, "/"),
        vec!["top", "last", "b/f2", "b/d/e/f5", "a/f1", "a/f4", "a/c/f3"]
    );
    assert_eq!(paths(&archive, "/a"), vec!["f1", "f4", "c/f3"]);
    assert_eq!(paths(&archive, "/a/c"), vec!["f3"]);
    assert_eq!(paths(&archive, "/b/d"), vec!["e/f5"]);
    assert_eq!(paths(&archive, "/a/c/.."), vec!["f1", "f4", "c/f3"]);
    let files = archive.for_each_file("/b").unwrap();
    assert_eq!(files[1].1.name(), b"f5");
    assert_eq!(files[1].1.chain(), archive.open_directory("/b/d/e").unwrap().pos_children());
    assert_eq!(archive.for_each_file("/top").err(), Some(Error::ExpectedDirectory));
    assert_eq!(archive.for_each_file("/none").err(), Some(Error::NotFound));
    assert_eq!(archive.for_each_file("a").err(), Some(Error::InvalidPath));
}

#[test]
fn opening_files_and_directories() {
    let mut archive = fresh(b"");
    archive.create_file("/dir/file").unwrap();
    assert_eq!(archive.open_file("/dir/none").err(), Some(Error::NotFound));
    assert_eq!(archive.open_file("/none/file").err(), Some(Error::NotFound));
    assert_eq!(archive.open_file("/dir").err(), Some(Error::ExpectedFile));
    assert_eq!(archive.open_file("/dir/file/x").err(), Some(Error::ExpectedDirectory));
    assert_eq!(archive.open_file("dir/file").err(), Some(Error::InvalidPath));
    assert_eq!(archive.open_file("").err(), Some(Error::InvalidPath));
    assert_eq!(archive.open_file("/").err(), Some(Error::InvalidPath));
    assert_eq!(archive.open_file("/DIR/file").err(), Some(Error::NotFound));
    assert_eq!(archive.open_file("/..").err(), Some(Error::InvalidPath));
    assert_eq!(archive.open_file("/dir/../../dir/file").err(), Some(Error::InvalidPath));
    assert_eq!(archive.open_directory("/..").err(), Some(Error::InvalidPath));
    assert_eq!(archive.open_directory("/dir/../..").err(), Some(Error::InvalidPath));
    assert_eq!(archive.open_directory("/dir/file").err(), Some(Error::ExpectedDirectory));
    assert_eq!(archive.open_directory("/none").err(), Some(Error::NotFound));
    assert_eq!(archive.open_directory("").err(), Some(Error::InvalidPath));
    assert_eq!(archive.open_file_mut("/dir").err(), Some(Error::ExpectedFile));
    let file = archive.open_file_mut("/dir/file").unwrap();
    assert_eq!(file.name(), b"file");
    assert_eq!(file.entry_index(), 2);
    let file = archive.open_file("/dir/file/").unwrap();
    assert_eq!(file.chain(), ChainIndex(2816));
}

#[test]
fn the_root_directory() {
    let mut archive = fresh(b"");
    archive.create_file("/dir/file").unwrap();
    archive.create_file("/top").unwrap();
    for path in ["/", "//", "/."] {
        let root = archive.open_directory(path).unwrap();
        assert!(root.is_root());
        assert_eq!(root.chain(), ChainIndex(0));
        assert_eq!(root.entry_index(), 0);
        assert_eq!(root.pos_children(), ROOT);
        assert_eq!(root.name(), b"/");
    }
    let root = archive.open_directory("/").unwrap();
    let list = root.entries().unwrap();
    assert_eq!(list.len(), 2);
    match &list[0] {
        DirEntry::Directory(dir) => {
            assert_eq!(dir.name(), b"dir");
            assert!(!dir.is_root());
            assert_eq!(dir.chain(), ROOT);
            assert_eq!(dir.entry_index(), 1);
            let inner = dir.entries().unwrap();
            assert_eq!(inner.len(), 1);
            assert!(matches!(&inner[0], DirEntry::File(file) if file.name() == b"file"));
        }
        DirEntry::File(_) => panic!("a directory was expected"),
    }
    match &list[1] {
        DirEntry::File(file) => assert_eq!(file.name(), b"top"),
        DirEntry::Directory(_) => panic!("a file was expected"),
    }
}

#[test]
fn entries_by_chain_and_position() {
    let mut archive = fresh(b"");
    archive.create_file("/f").unwrap();
    assert!(archive.get_entry(ROOT, 0).unwrap().is_dir());
    assert!(archive.get_entry(ROOT, 1).unwrap().is_file());
    assert!(archive.get_entry(ROOT, 20).is_none());
    assert!(archive.get_entry(ChainIndex(1), 0).is_none());
    assert!(archive.get_chain(ChainIndex(0)).is_none());
    assert_eq!(Pk2::is_file(archive.get_entry(ROOT, 1).unwrap()), Ok(()));
    assert_eq!(Pk2::is_file(archive.get_entry(ROOT, 0).unwrap()), Err(Error::ExpectedFile));
    assert_eq!(Pk2::is_dir(archive.get_entry(ROOT, 0).unwrap()), Ok(()));
    assert_eq!(Pk2::is_dir(archive.get_entry(ROOT, 1).unwrap()), Err(Error::ExpectedDirectory));
    assert_eq!(Pk2::is_dir(archive.get_entry(ROOT, 2).unwrap()), Err(Error::ExpectedDirectory));
}

#[test]
fn creating_names_that_are_no_text() {
    let mut archive = fresh(b"");
    assert_eq!(archive.create_entry_at(ROOT, &[0xFF]), Err(Error::NonUnicodePath));
    assert_eq!(archive.create_entry_at(ROOT, b"a/\xC3/b"), Err(Error::NonUnicodePath));
    // the directory before the name that is no text was made
    assert!(archive.open_directory("/a").is_ok());
    assert_eq!(archive.chain_count(), 2);
    assert!(archive.create_file("/\u{d55c}\u{ae00}/\u{20ac}.txt").is_ok());
    assert_eq!(paths(&archive, "/"), vec!["\u{d55c}\u{ae00}/\u{20ac}.txt"]);
}

#[test]
fn creating_from_a_chain() {
    let mut archive = fresh(b"");
    assert_eq!(archive.create_entry_at(ROOT, b"a/b/c"), Ok((ChainIndex(2816 + 2560), 2)));
    // the directories are there, the slot of the last name is unused
    assert!(archive.open_directory("/a/b").is_ok());
    assert!(archive.get_entry(ChainIndex(2816 + 2560), 2).unwrap().is_empty());
    assert_eq!(archive.open_file("/a/b/c").err(), Some(Error::NotFound));
    assert_eq!(archive.create_entry_at(ROOT, b"a/b"), Err(Error::AlreadyExists));
    assert_eq!(archive.create_entry_at(ROOT, b""), Err(Error::AlreadyExists));
    assert_eq!(archive.create_entry_at(ChainIndex(2816), b"b/x"), Ok((ChainIndex(2816 + 2560), 2)));
    assert_eq!(archive.create_entry_at(ChainIndex(9), b"x"), Err(Error::InvalidChainIndex));
    assert_eq!(archive.create_entry_at(ROOT, b"../x"), Err(Error::InvalidPath));
}
