use pk2::blowfish::Blowfish;
use pk2::error::{Error, IoError};
use pk2::io::{
    allocate_empty_block, allocate_new_block_chain, file_len, read_block_at, write_block,
    write_chain_entry, write_entry_at, Stream,
};
use pk2::raw::block_chain::{PackBlock, PackBlockChain};
use pk2::raw::block_manager::BlockManager;
use pk2::raw::entry::PackEntry;
use pk2::raw::ChainIndex;

fn two_blocks() -> PackBlockChain {
    let mut first = PackBlock::new(256);
    *first.get_mut(0).unwrap() = PackEntry::current_dir(ChainIndex(256));
    *first.get_mut(1).unwrap() = PackEntry::new_directory(b"dir", ChainIndex(2816), None);
    *first.get_mut(2).unwrap() = PackEntry::new_file(b"file", 9000, 12, None);
    first.get_mut(19).unwrap().set_next_block(10_000);
    let mut second = PackBlock::new(10_000);
    *second.get_mut(3).unwrap() = PackEntry::new_file(b"late", 9100, 1, None);
    PackBlockChain::from_blocks(vec![first, second])
}

#[test]
fn entries_lie_where_the_chain_says() {
    let chain = two_blocks();
    assert_eq!(chain.num_entries(), 40);
    assert_eq!(chain.num_blocks(), 2);
    assert_eq!(chain.chain_index(), ChainIndex(256));
    assert_eq!(chain.file_offset_for_entry(0), Some(256));
    assert_eq!(chain.file_offset_for_entry(1), Some(256 + 128));
    assert_eq!(chain.file_offset_for_entry(19), Some(256 + 19 * 128));
    assert_eq!(chain.file_offset_for_entry(20), Some(10_000));
    assert_eq!(chain.file_offset_for_entry(25), Some(10_000 + 5 * 128));
    assert_eq!(chain.file_offset_for_entry(39), Some(10_000 + 19 * 128));
    assert_eq!(chain.file_offset_for_entry(40), None);
    assert_eq!(chain.file_offset_for_entry(usize::MAX), None);
}

#[test]
fn entries_of_a_chain_by_position() {
    let mut chain = two_blocks();
    assert!(chain.get(0).unwrap().is_dir());
    assert_eq!(chain.get(2).unwrap().name().unwrap(), b"file");
    assert_eq!(chain.get(23).unwrap().name().unwrap(), b"late");
    assert!(chain.get(39).unwrap().is_empty());
    assert!(chain.get(40).is_none());
    assert!(chain.get_mut(40).is_none());
    *chain.get_mut(24).unwrap() = PackEntry::new_file(b"new", 1, 1, None);
    assert_eq!(chain.get(24).unwrap().name().unwrap(), b"new");
    let all = chain.entries();
    assert_eq!(all.len(), 40);
    assert_eq!(all[23].name().unwrap(), b"late");
    assert_eq!(all[24].name().unwrap(), b"new");
    assert_eq!(chain.position_of(b"late"), Some(23));
    assert_eq!(chain.position_of(b"none"), None);
    assert_eq!(chain.first_unused(), Some(3));
    let copy = chain.clone();
    assert_eq!(copy.position_of(b"new"), Some(24));
}

#[test]
fn names_lead_to_chains() {
    let chain = two_blocks();
    assert_eq!(chain.find_block_chain_index_of(b"dir"), Ok(ChainIndex(2816)));
    assert_eq!(chain.find_block_chain_index_of(b"."), Ok(ChainIndex(256)));
    assert_eq!(chain.find_block_chain_index_of(b"file"), Err(Error::ExpectedDirectory));
    assert_eq!(chain.find_block_chain_index_of(b"late"), Err(Error::ExpectedDirectory));
    assert_eq!(chain.find_block_chain_index_of(b"absent"), Err(Error::NotFound));
    assert_eq!(chain.find_block_chain_index_of(b".."), Err(Error::NotFound));
    assert_eq!(chain.find_block_chain_index_of(b"DIR"), Err(Error::NotFound));
    assert_eq!(chain.find_block_chain_index_of(b""), Err(Error::NotFound));
}

#[test]
fn the_first_of_two_equal_names_is_found() {
    let mut block = PackBlock::new(256);
    *block.get_mut(4).unwrap() = PackEntry::new_file(b"twice", 0, 0, None);
    *block.get_mut(9).unwrap() = PackEntry::new_directory(b"twice", ChainIndex(5000), None);
    let chain = PackBlockChain::from_blocks(vec![block]);
    assert_eq!(chain.position_of(b"twice"), Some(4));
    assert_eq!(chain.find_block_chain_index_of(b"twice"), Err(Error::ExpectedDirectory));
}

#[test]
fn pushing_and_linking() {
    let mut chain = PackBlockChain::from_blocks(vec![PackBlock::new(256)]);
    assert_eq!(chain.get(19).unwrap().next_block(), None);
    chain.push_and_link(PackBlock::new(7000));
    assert_eq!(chain.num_blocks(), 2);
    assert_eq!(chain.get(19).unwrap().next_block(), Some(7000));
    assert_eq!(chain.file_offset_for_entry(20), Some(7000));
    chain.push(PackBlock::new(12_000));
    assert_eq!(chain.num_entries(), 60);
    assert_eq!(chain.get(39).unwrap().next_block(), None);
}

#[test]
fn stream_reads_and_writes() {
    let mut stream = Stream::from_vec(vec![1, 2, 3, 4, 5]);
    assert_eq!(stream.len(), 5);
    assert_eq!(file_len(&stream), 5);
    assert_eq!(stream.read_exact_at(1, 3), Ok(vec![2, 3, 4]));
    assert_eq!(stream.read_exact_at(5, 0), Ok(vec![]));
    assert_eq!(stream.read_exact_at(3, 3), Err(Error::Io(IoError::UnexpectedEof)));
    assert_eq!(stream.read_exact_at(6, 0), Err(Error::Io(IoError::UnexpectedEof)));
    assert_eq!(stream.read_exact_at(u64::MAX, 1), Err(Error::Io(IoError::UnexpectedEof)));
    assert_eq!(stream.write_all_at(1, &[9, 9]), Ok(()));
    assert_eq!(stream.as_slice(), &[1, 9, 9, 4, 5]);
    assert_eq!(stream.write_all_at(4, &[7, 7, 7]), Ok(()));
    assert_eq!(stream.as_slice(), &[1, 9, 9, 4, 7, 7, 7]);
    assert_eq!(stream.write_all_at(7, &[8]), Ok(()));
    assert_eq!(stream.write_all_at(9, &[8]), Err(Error::Io(IoError::OutOfBounds)));
    assert_eq!(stream.into_vec(), vec![1, 9, 9, 4, 7, 7, 7, 8]);
    let mut stream = Stream::new();
    assert_eq!(stream.len(), 0);
    stream.write_all_at(0, &[1]).unwrap();
    stream.truncate();
    assert_eq!(stream.len(), 0);
}

#[test]
fn blocks_are_written_and_read() {
    let mut stream = Stream::from_vec(vec![0xAB; 256]);
    let mut block = PackBlock::new(256);
    *block.get_mut(3).unwrap() = PackEntry::new_file(b"three", 1, 2, None);
    assert_eq!(write_block(None, &mut stream, 256, &block), Ok(()));
    assert_eq!(stream.len(), 256 + 2560);
    let back = read_block_at(None, &stream, 256).unwrap();
    assert_eq!(back.get(3).unwrap().name().unwrap(), b"three");
    assert_eq!(back.offset(), 256);
    // over what is there
    assert_eq!(write_block(None, &mut stream, 256, &PackBlock::new(256)), Ok(()));
    assert!(read_block_at(None, &stream, 256).unwrap().get(3).unwrap().is_empty());
    // neither into the air nor half over the end
    assert_eq!(
        write_block(None, &mut stream, 5000, &block),
        Err(Error::Io(IoError::OutOfBounds))
    );
    assert_eq!(
        write_block(None, &mut stream, 1000, &block),
        Err(Error::Io(IoError::OutOfBounds))
    );
    assert_eq!(stream.len(), 256 + 2560);
    assert_eq!(
        read_block_at(None, &stream, 257).err(),
        Some(Error::Io(IoError::UnexpectedEof))
    );
    assert_eq!(
        read_block_at(None, &stream, u64::MAX).err(),
        Some(Error::Io(IoError::UnexpectedEof))
    );
}

#[test]
fn blocks_are_stored_encrypted() {
    let cipher = Blowfish::new(b"secret").unwrap();
    let mut stream = Stream::new();
    let mut block = PackBlock::new(0);
    *block.get_mut(0).unwrap() = PackEntry::new_file(b"hidden", 1, 2, None);
    write_block(Some(&cipher), &mut stream, 0, &block).unwrap();
    let mut plain = Vec::new();
    block.to_writer(&mut plain);
    assert_ne!(stream.as_slice(), &plain[..]);
    let mut stored = stream.as_slice().to_vec();
    cipher.decrypt(&mut stored);
    assert_eq!(stored, plain);
    let back = read_block_at(Some(&cipher), &stream, 0).unwrap();
    assert_eq!(back.get(0).unwrap().name().unwrap(), b"hidden");
    let plain_read = read_block_at(None, &stream, 0);
    assert!(plain_read.is_err() || !plain_read.unwrap().get(0).unwrap().has_name(b"hidden"));
}

#[test]
fn one_entry_is_written_by_itself() {
    let cipher = Blowfish::new(b"secret").unwrap();
    let mut stream = Stream::new();
    write_block(Some(&cipher), &mut stream, 0, &PackBlock::new(0)).unwrap();
    let entry = PackEntry::new_file(b"single", 3, 4, None);
    assert_eq!(write_entry_at(Some(&cipher), &mut stream, 5 * 128, &entry), Ok(()));
    assert_eq!(stream.len(), 2560);
    let back = read_block_at(Some(&cipher), &stream, 0).unwrap();
    assert_eq!(back.get(5).unwrap().name().unwrap(), b"single");
    assert!(back.get(4).unwrap().is_empty());
    assert!(back.get(6).unwrap().is_empty());
    assert_eq!(
        write_entry_at(Some(&cipher), &mut stream, 2560 - 127, &entry),
        Err(Error::Io(IoError::OutOfBounds))
    );
    assert_eq!(
        write_entry_at(None, &mut stream, 2560, &entry),
        Err(Error::Io(IoError::OutOfBounds))
    );
}

#[test]
fn chain_entries_are_written_where_they_lie() {
    let mut stream = Stream::from_vec(vec![0; 256]);
    let (offset, block) = allocate_empty_block(None, &mut stream).unwrap();
    assert_eq!(offset, 256);
    assert_eq!(stream.len(), 2816);
    let mut chain = PackBlockChain::from_blocks(vec![block]);
    *chain.get_mut(2).unwrap() = PackEntry::new_file(b"two", 0, 0, None);
    assert_eq!(write_chain_entry(None, &mut stream, &chain, 2), Ok(()));
    assert_eq!(stream.as_slice()[256 + 2 * 128], 2);
    assert_eq!(&stream.as_slice()[256 + 2 * 128 + 1..256 + 2 * 128 + 4], b"two");
    assert_eq!(chain.create_new_block(None, &mut stream), Ok(20));
    assert_eq!(stream.len(), 2816 + 2560);
    assert_eq!(chain.num_blocks(), 2);
    assert_eq!(chain.get(19).unwrap().next_block(), Some(2816));
    let first = read_block_at(None, &stream, 256).unwrap();
    assert_eq!(first.get(19).unwrap().next_block(), Some(2816));
    let read = BlockManager::read_chain_from_file_at(None, &stream, ChainIndex(256)).unwrap();
    assert_eq!(read.num_blocks(), 2);
    assert_eq!(read.get(2).unwrap().name().unwrap(), b"two");
}

#[test]
fn new_chains_name_themselves_and_their_parent() {
    let mut stream = Stream::from_vec(vec![0; 256]);
    let (_, block) = allocate_empty_block(None, &mut stream).unwrap();
    let mut parent = PackBlockChain::from_blocks(vec![block]);
    parent.get_mut(6).unwrap().set_next_block(0);
    let child = allocate_new_block_chain(None, &mut stream, &mut parent, b"sub", 6).unwrap();
    assert_eq!(child.chain_index(), ChainIndex(2816));
    assert_eq!(child.num_blocks(), 1);
    let dot = child.get(0).unwrap().as_directory().unwrap();
    assert!(dot.is_current_link());
    assert_eq!(dot.children_position(), ChainIndex(2816));
    let up = child.get(1).unwrap().as_directory().unwrap();
    assert!(up.is_parent_link());
    assert_eq!(up.children_position(), ChainIndex(256));
    assert!(child.get(2).unwrap().is_empty());
    assert_eq!(parent.find_block_chain_index_of(b"sub"), Ok(ChainIndex(2816)));
    assert_eq!(parent.position_of(b"sub"), Some(6));
    // both are in the stream
    let stored_parent = read_block_at(None, &stream, 256).unwrap();
    assert_eq!(stored_parent.get(6).unwrap().name().unwrap(), b"sub");
    let stored_child = read_block_at(None, &stream, 2816).unwrap();
    assert_eq!(stored_child.get(1).unwrap().name().unwrap(), b"..");
    assert_eq!(stream.len(), 256 + 2 * 2560);
}

#[test]
fn cache_of_chains() {
    let mut manager = BlockManager::empty();
    assert_eq!(manager.len(), 0);
    assert!(manager.get(ChainIndex(256)).is_none());
    assert!(manager.get_mut(ChainIndex(256)).is_none());
    manager.insert(ChainIndex(256), two_blocks());
    assert_eq!(manager.len(), 1);
    assert_eq!(manager.get(ChainIndex(256)).unwrap().num_blocks(), 2);
    manager.insert(ChainIndex(2816), PackBlockChain::from_blocks(vec![PackBlock::new(2816)]));
    assert_eq!(manager.len(), 2);
    manager.insert(ChainIndex(256), PackBlockChain::from_blocks(vec![PackBlock::new(256)]));
    assert_eq!(manager.len(), 2);
    assert_eq!(manager.get(ChainIndex(256)).unwrap().num_blocks(), 1);
    *manager.get_mut(ChainIndex(2816)).unwrap().get_mut(0).unwrap() =
        PackEntry::new_file(b"put", 0, 0, None);
    assert_eq!(manager.get(ChainIndex(2816)).unwrap().position_of(b"put"), Some(0));
}

fn small_tree() -> BlockManager {
    // /dir/inner/leaf, /file
    let mut manager = BlockManager::empty();
    manager.insert(ChainIndex(256), two_blocks());
    let mut dir = PackBlock::new(2816);
    *dir.get_mut(0).unwrap() = PackEntry::current_dir(ChainIndex(2816));
    *dir.get_mut(1).unwrap() = PackEntry::parent_dir(ChainIndex(256));
    *dir.get_mut(2).unwrap() = PackEntry::new_directory(b"inner", ChainIndex(5376), None);
    manager.insert(ChainIndex(2816), PackBlockChain::from_blocks(vec![dir]));
    let mut inner = PackBlock::new(5376);
    *inner.get_mut(0).unwrap() = PackEntry::current_dir(ChainIndex(5376));
    *inner.get_mut(1).unwrap() = PackEntry::parent_dir(ChainIndex(2816));
    *inner.get_mut(2).unwrap() = PackEntry::new_file(b"leaf", 1, 1, None);
    manager.insert(ChainIndex(5376), PackBlockChain::from_blocks(vec![inner]));
    manager
}

#[test]
fn paths_resolve_to_chains() {
    let manager = small_tree();
    let root = ChainIndex(256);
    assert_eq!(manager.resolve_path_to_block_chain_index_at(root, b""), Ok(root));
    assert_eq!(manager.resolve_path_to_block_chain_index_at(root, b"dir"), Ok(ChainIndex(2816)));
    assert_eq!(
        manager.resolve_path_to_block_chain_index_at(root, b"dir/inner"),
        Ok(ChainIndex(5376))
    );
    assert_eq!(
        manager.resolve_path_to_block_chain_index_at(root, b"dir/inner/.."),
        Ok(ChainIndex(2816))
    );
    assert_eq!(
        manager.resolve_path_to_block_chain_index_at(root, b"dir/./inner/../.."),
        Ok(root)
    );
    assert_eq!(
        manager.resolve_path_to_block_chain_index_at(ChainIndex(2816), b"inner"),
        Ok(ChainIndex(5376))
    );
    assert_eq!(
        manager.resolve_path_to_block_chain_index_at(root, b"dir/none"),
        Err(Error::NotFound)
    );
    assert_eq!(
        manager.resolve_path_to_block_chain_index_at(root, b"file/x"),
        Err(Error::ExpectedDirectory)
    );
    assert_eq!(manager.resolve_path_to_block_chain_index_at(root, b".."), Err(Error::InvalidPath));
    assert_eq!(
        manager.resolve_path_to_block_chain_index_at(root, b"dir/../../dir"),
        Err(Error::InvalidPath)
    );
    assert_eq!(
        manager.resolve_path_to_block_chain_index_at(ChainIndex(77), b"dir"),
        Err(Error::InvalidChainIndex)
    );
    assert_eq!(
        manager.resolve_path_to_block_chain_index_at(ChainIndex(77), b""),
        Ok(ChainIndex(77))
    );
}

#[test]
fn paths_resolve_to_entries() {
    let manager = small_tree();
    let root = ChainIndex(256);
    let (chain, idx, entry) = manager.resolve_path_to_entry_and_parent(root, b"file").unwrap();
    assert_eq!((chain, idx), (root, 2));
    assert!(entry.is_file());
    let (chain, idx, entry) =
        manager.resolve_path_to_entry_and_parent(root, b"dir/inner/leaf").unwrap();
    assert_eq!((chain, idx), (ChainIndex(5376), 2));
    assert_eq!(entry.name().unwrap(), b"leaf");
    let (chain, idx, entry) = manager.resolve_path_to_entry_and_parent(root, b"late").unwrap();
    assert_eq!((chain, idx), (root, 23));
    assert!(entry.is_file());
    let (chain, idx, entry) =
        manager.resolve_path_to_entry_and_parent(root, b"dir/inner/..").unwrap();
    assert_eq!((chain, idx), (ChainIndex(5376), 1));
    assert_eq!(entry.as_directory().unwrap().children_position(), ChainIndex(2816));
    assert_eq!(
        manager.resolve_path_to_entry_and_parent(root, b"").err(),
        Some(Error::InvalidPath)
    );
    assert_eq!(
        manager.resolve_path_to_entry_and_parent(root, b"./.").err(),
        Some(Error::InvalidPath)
    );
    assert_eq!(
        manager.resolve_path_to_entry_and_parent(root, b"dir/absent").err(),
        Some(Error::NotFound)
    );
    assert_eq!(
        manager.resolve_path_to_entry_and_parent(root, b"absent/leaf").err(),
        Some(Error::NotFound)
    );
    assert_eq!(
        manager.resolve_path_to_entry_and_parent(root, b"file/leaf").err(),
        Some(Error::ExpectedDirectory)
    );
    assert_eq!(
        manager.resolve_path_to_entry_and_parent(root, b"..").err(),
        Some(Error::InvalidPath)
    );
    assert_eq!(
        manager.resolve_path_to_entry_and_parent(root, b"../file").err(),
        Some(Error::InvalidPath)
    );
    assert_eq!(
        manager.resolve_path_to_entry_and_parent(ChainIndex(1), b"file").err(),
        Some(Error::InvalidChainIndex)
    );
}

#[test]
fn names_of_a_path_must_be_text() {
    let manager = small_tree();
    let root = ChainIndex(256);
    assert_eq!(
        manager.resolve_path_to_block_chain_index_at(root, &[0xFF]),
        Err(Error::NonUnicodePath)
    );
    assert_eq!(
        manager.resolve_path_to_block_chain_index_at(root, b"dir/\xC3/inner"),
        Err(Error::NonUnicodePath)
    );
    assert_eq!(
        manager.resolve_path_to_block_chain_index_at(ChainIndex(77), &[0xFF]),
        Err(Error::NonUnicodePath)
    );
    assert_eq!(
        manager.resolve_path_to_entry_and_parent(root, b"dir/\xF0\x28").err(),
        Some(Error::NonUnicodePath)
    );
    assert_eq!(
        manager.resolve_path_to_entry_and_parent(root, b"\x80/leaf").err(),
        Some(Error::NonUnicodePath)
    );
    assert_eq!(
        manager.validate_dir_path_until(root, b"dir/\xFF/x"),
        Err(Error::NonUnicodePath)
    );
    // what is not looked at is not refused
    assert_eq!(
        manager.validate_dir_path_until(root, b"none/\xFF"),
        Ok((root, vec![b"none".to_vec(), vec![0xFF]]))
    );
    assert_eq!(
        manager.resolve_path_to_block_chain_index_at(root, "dir/inn\u{e9}r".as_bytes()),
        Err(Error::NotFound)
    );
}

#[test]
fn paths_are_followed_while_they_exist() {
    let manager = small_tree();
    let root = ChainIndex(256);
    assert_eq!(
        manager.validate_dir_path_until(root, b"dir/inner/new/leaf"),
        Ok((ChainIndex(5376), vec![b"new".to_vec(), b"leaf".to_vec()]))
    );
    assert_eq!(manager.validate_dir_path_until(root, b"dir/inner"), Ok((ChainIndex(5376), vec![])));
    assert_eq!(manager.validate_dir_path_until(root, b""), Ok((root, vec![])));
    assert_eq!(
        manager.validate_dir_path_until(root, b"a/../b"),
        Ok((root, vec![b"a".to_vec(), b"..".to_vec(), b"b".to_vec()]))
    );
    assert_eq!(manager.validate_dir_path_until(root, b"dir/../dir"), Ok((ChainIndex(2816), vec![])));
    assert_eq!(manager.validate_dir_path_until(root, b"../x"), Err(Error::InvalidPath));
    assert_eq!(manager.validate_dir_path_until(root, b"dir/../../x"), Err(Error::InvalidPath));
    assert_eq!(manager.validate_dir_path_until(root, b"file/x"), Err(Error::ExpectedDirectory));
    assert_eq!(
        manager.validate_dir_path_until(ChainIndex(3), b"x"),
        Err(Error::InvalidChainIndex)
    );
}
