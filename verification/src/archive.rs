//! The archive: a stream, the cipher that its key gives, and the cache of
//! its chains.

pub mod coherence;
pub mod consistency;
pub mod fs;
pub mod walk;

use vstd::prelude::*;
use vstd::string::StringSliceAdditionalSpecFns;
use crate::archive::fs::{Directory, File, FileMut};
use crate::blowfish::{Blowfish, BlowfishView, spec_schedule, valid_key_len};
use crate::constants::{
    PK2_FILE_BLOCK_SIZE, PK2_FILE_HEADER_SIZE, PK2_MAX_CHAIN_BLOCKS, PK2_ROOT_BLOCK,
    PK2_ROOT_BLOCK_VIRTUAL, PK2_SIGNATURE,
};
use crate::error::{Error, IoError, Pk2Result};
use crate::io::{
    Stream, allocate_empty_block, allocate_new_block_chain, can_append_block, can_write_entry, new_chain_entries, spec_append_chain, spec_read_block,
    spec_write_block, spec_write_entry, write_block, write_chain_entry,
    lemma_read_written_block, lemma_seal_len, lemma_write_then_read, spec_seal,
};
use crate::path::{
    check_root, components, is_parent_dir, is_text, names_view, spec_check_root,
    spec_components, spec_is_text,
};
use crate::raw::ChainIndex;
use crate::raw::block_chain::{
    PackBlock, PackBlockChain, PackBlockView, chain_entries, chain_pushed_and_linked, chain_wf,
    chain_with_entry, empty_entries, first_index, spec_encode_entries, spec_file_offset_for_entry,
    spec_find_child, unused, lemma_chain_with_entry, lemma_encode_entries, lemma_first_index,
};
use crate::raw::block_manager::{
    BlockManager, ChainsView, chain_budget, chains_wf, child_links, spec_load, spec_load_archive,
    spec_read_chain, spec_resolve_entry, spec_validate_dir_path,
};
use crate::raw::entry::{
    PackEntry, PackEntryView, current_dir_name, is_valid_name, parent_dir_name, valid_name,
};
use crate::raw::header::{
    PackHeader, PackHeaderView, checksum, encrypted_header, plain_header, spec_checksum,
    spec_encode_header, spec_read_header, lemma_checksum_len, lemma_decode_encode_header,
};

verus! {

/// What an archive is made of: the bytes of its stream, the subkeys of its
/// cipher where it is encrypted, and its chains.
pub struct Pk2View {
    pub image: Seq<u8>,
    pub cipher: Option<BlowfishView>,
    pub chains: ChainsView,
}

/// The subkeys of an optional cipher.
pub open spec fn owned_cipher_view(bf: Option<Blowfish>) -> Option<BlowfishView> {
    match bf {
        Some(cipher) => Some(cipher@),
        None => None,
    }
}

/// The cipher that a new archive is given for `key`: none for the empty key.
pub open spec fn spec_cipher_for(key: Seq<u8>) -> Option<BlowfishView> {
    if key.len() == 0 {
        None
    } else {
        Some(spec_schedule(key))
    }
}

/// The header of an archive with the given cipher.
pub open spec fn header_for(cipher: Option<BlowfishView>) -> PackHeaderView {
    match cipher {
        Some(v) => encrypted_header(v),
        None => plain_header(),
    }
}

/// The entries of the first block of the root directory of a new archive:
/// `.`, which names the block itself, and nineteen unused entries.
pub open spec fn root_entries() -> Seq<PackEntryView> {
    empty_entries().update(0, PackEntryView::directory(current_dir_name(), PK2_ROOT_BLOCK, 0))
}

/// The first block of the root directory of a new archive.
pub open spec fn root_block() -> PackBlockView {
    PackBlockView { offset: PK2_ROOT_BLOCK, entries: root_entries() }
}

/// The bytes of a new archive: the header, and the first block of the root
/// directory.
pub open spec fn spec_fresh_image(cipher: Option<BlowfishView>) -> Seq<u8> {
    spec_write_block(cipher, spec_encode_header(header_for(cipher)), PK2_ROOT_BLOCK, root_entries())
}

/// A new archive: its only chain is that of the root directory, one block
/// whose first entry is the directory `.` that names the block itself.
pub open spec fn spec_fresh_archive(cipher: Option<BlowfishView>) -> Pk2View {
    Pk2View {
        image: spec_fresh_image(cipher),
        cipher,
        chains: Map::<u64, Seq<PackBlockView>>::empty().insert(PK2_ROOT_BLOCK, seq![root_block()]),
    }
}

/// What opening the archive in `image` with `key` gives. The header must
/// carry the signature. Where it says that the archive is encrypted, the key
/// must be one that the cipher accepts, and must give the checksum that the
/// header holds: `InvalidKey` otherwise. The key of an archive that is not
/// encrypted is not looked at.
pub open spec fn spec_open(image: Seq<u8>, key: Seq<u8>) -> Pk2Result<Pk2View> {
    match spec_read_header(image) {
        Err(e) => Err(e),
        Ok(header) => {
            let cipher = if header.encrypted {
                Some(spec_schedule(key))
            } else {
                None
            };
            if header.signature != PK2_SIGNATURE@ {
                Err(Error::InvalidSignature)
            } else if header.encrypted && !valid_key_len(key.len()) {
                Err(Error::InvalidKey)
            } else if header.encrypted && header.verify != spec_checksum(spec_schedule(key)) {
                Err(Error::InvalidKey)
            } else {
                match spec_load_archive(cipher, image) {
                    Ok(chains) => Ok(Pk2View { image, cipher, chains }),
                    Err(e) => Err(e),
                }
            }
        },
    }
}

/// The entry at position `idx` of the chain `chain`, if there is one.
pub open spec fn spec_entry(chains: ChainsView, chain: u64, idx: int) -> Option<PackEntryView> {
    if chains.contains_key(chain) && 0 <= idx < chain_entries(chains[chain]).len() {
        Some(chain_entries(chains[chain])[idx])
    } else {
        None
    }
}

/// Whether the entry at position `idx` of the chain `chain` is a file.
pub open spec fn is_file_at(chains: ChainsView, chain: u64, idx: int) -> bool {
    spec_entry(chains, chain, idx) matches Some(entry) && entry is File
}

/// The file that `path` names, looked up from the root directory: its chain
/// and its position there.
pub open spec fn spec_open_file(chains: ChainsView, path: Seq<u8>) -> Pk2Result<(u64, int)> {
    match spec_check_root(path) {
        Err(e) => Err(e),
        Ok(rest) => match spec_resolve_entry(chains, PK2_ROOT_BLOCK, spec_components(rest)) {
            Err(e) => Err(e),
            Ok((chain, idx)) => if chain_entries(chains[chain])[idx] is File {
                Ok((chain, idx))
            } else {
                Err(Error::ExpectedFile)
            },
        },
    }
}

/// The directory that `path` names, looked up from the root directory: its
/// chain and its position there. A path without names is the root directory
/// itself, which no entry stands for: it is given as position 0 of the chain
/// with the reserved offset 0.
pub open spec fn spec_open_directory(chains: ChainsView, path: Seq<u8>) -> Pk2Result<(u64, int)> {
    match spec_check_root(path) {
        Err(e) => Err(e),
        Ok(rest) => if spec_components(rest).len() == 0 {
            Ok((PK2_ROOT_BLOCK_VIRTUAL, 0))
        } else {
            match spec_resolve_entry(chains, PK2_ROOT_BLOCK, spec_components(rest)) {
                Err(e) => Err(e),
                Ok((chain, idx)) => if !(chain_entries(chains[chain])[idx] is Directory) {
                    Err(Error::ExpectedDirectory)
                } else if chain == PK2_ROOT_BLOCK_VIRTUAL {
                    Err(Error::InvalidChainIndex)
                } else {
                    Ok((chain, idx))
                },
            }
        },
    }
}

/// What deleting the file that `path` names makes of an archive, and whether
/// it succeeds. The entry of the file becomes unused in memory first, and
/// then in the stream.
pub open spec fn spec_delete_file(archive: Pk2View, path: Seq<u8>) -> (Pk2View, Pk2Result<()>) {
    match spec_open_file(archive.chains, path) {
        Err(e) => (archive, Err(e)),
        Ok((chain, idx)) => {
            let before = archive.chains[chain];
            let cleared = PackEntryView::Empty { next_block: chain_entries(before)[idx].next_block() };
            let chains = archive.chains.insert(chain, chain_with_entry(before, idx, cleared));
            let at = spec_file_offset_for_entry(before, idx) as u64;
            if can_write_entry(archive.image, at) {
                (
                    Pk2View {
                        image: spec_write_entry(archive.cipher, archive.image, at, cleared),
                        cipher: archive.cipher,
                        chains,
                    },
                    Ok(()),
                )
            } else {
                (
                    Pk2View { image: archive.image, cipher: archive.cipher, chains },
                    Err(Error::Io(IoError::OutOfBounds)),
                )
            }
        },
    }
}

/// The chains and the bytes of an archive in the course of a creation, and
/// what the creation has come to: the chain and the position of the slot
/// that it reached, or why it stopped.
pub struct Creation {
    pub chains: ChainsView,
    pub image: Seq<u8>,
    pub result: Pk2Result<(u64, int)>,
}

/// Finds a slot for a new entry in the chain `current`: the first unused
/// entry, or, where the chain is full, the first entry of a block that is
/// appended to the stream and to the chain. The new block is stored before
/// the entry that was last names it as the next block, in memory and then in
/// the stream.
pub open spec fn spec_find_slot(
    cipher: Option<BlowfishView>,
    chains: ChainsView,
    image: Seq<u8>,
    current: u64,
) -> Creation {
    let chain = chains[current];
    match first_index(chain_entries(chain), unused()) {
        Some(idx) => Creation { chains, image, result: Ok((current, idx)) },
        None => if chain.len() >= PK2_MAX_CHAIN_BLOCKS {
            Creation { chains, image, result: Err(Error::MalformedChain) }
        } else if !can_append_block(image) {
            Creation { chains, image, result: Err(Error::Io(IoError::OutOfBounds)) }
        } else {
            let offset = image.len() as u64;
            let stored = spec_write_block(cipher, image, offset, empty_entries());
            let grown = chain_pushed_and_linked(
                chain,
                PackBlockView { offset, entries: empty_entries() },
            );
            let last = chain.len() * 20 - 1;
            let at = spec_file_offset_for_entry(grown, last) as u64;
            if can_write_entry(stored, at) {
                Creation {
                    chains: chains.insert(current, grown),
                    image: spec_write_entry(cipher, stored, at, chain_entries(grown)[last]),
                    result: Ok((current, last + 1)),
                }
            } else {
                Creation {
                    chains: chains.insert(current, grown),
                    image: stored,
                    result: Err(Error::Io(IoError::OutOfBounds)),
                }
            }
        },
    }
}

/// Makes the slot `idx` of the chain `parent` a directory named `name` with
/// a chain of its own: the first block of that chain, with `.` and `..`, is
/// appended to the stream, and then the slot names it, in memory and in the
/// stream. The new chain joins the chains of the archive.
pub open spec fn spec_make_directory(
    cipher: Option<BlowfishView>,
    chains: ChainsView,
    image: Seq<u8>,
    parent: u64,
    idx: int,
    name: Seq<u8>,
) -> Creation {
    let chain = chains[parent];
    if !can_append_block(image) {
        Creation { chains, image, result: Err(Error::Io(IoError::OutOfBounds)) }
    } else {
        let offset = image.len() as u64;
        let link = PackEntryView::directory(name, offset, chain_entries(chain)[idx].next_block());
        let stored = spec_append_chain(cipher, image, chain[0].offset);
        let at = spec_file_offset_for_entry(chain, idx) as u64;
        let linked = chains.insert(parent, chain_with_entry(chain, idx, link));
        if can_write_entry(stored, at) {
            Creation {
                chains: linked.insert(
                    offset,
                    seq![
                        PackBlockView {
                            offset,
                            entries: new_chain_entries(offset, chain[0].offset),
                        },
                    ],
                ),
                image: spec_write_entry(cipher, stored, at, link),
                result: Ok((offset, idx)),
            }
        } else {
            Creation { chains: linked, image: stored, result: Err(Error::Io(IoError::OutOfBounds)) }
        }
    }
}

/// Creates what `names` name, from the chain `current` on. Each name but the
/// last becomes a new directory in a slot of the chain reached so far, and
/// leads to the chain of that directory; `..` leads to the parent of the
/// chain reached so far and creates nothing, and is `InvalidPath` where the
/// chain has no parent. The last name is given a slot
/// and nothing else: the chain and position of that slot are the result. A
/// name that is not text is `NonUnicodePath`, a name that no entry can hold
/// is `InvalidPath`; names that run out before anything is created are
/// `AlreadyExists`.
pub open spec fn spec_create_from(
    cipher: Option<BlowfishView>,
    chains: ChainsView,
    image: Seq<u8>,
    current: u64,
    names: Seq<Seq<u8>>,
) -> Creation
    decreases names.len(),
{
    if names.len() == 0 {
        Creation { chains, image, result: Err(Error::AlreadyExists) }
    } else if !chains.contains_key(current) {
        Creation { chains, image, result: Err(Error::InvalidChainIndex) }
    } else if names[0] == parent_dir_name() {
        match spec_find_child(chain_entries(chains[current]), parent_dir_name()) {
            Ok(parent) => spec_create_from(cipher, chains, image, parent, names.skip(1)),
            Err(Error::NotFound) => Creation { chains, image, result: Err(Error::InvalidPath) },
            Err(e) => Creation { chains, image, result: Err(e) },
        }
    } else if !spec_is_text(names[0]) {
        Creation { chains, image, result: Err(Error::NonUnicodePath) }
    } else if !valid_name(names[0]) {
        Creation { chains, image, result: Err(Error::InvalidPath) }
    } else {
        let slot = spec_find_slot(cipher, chains, image, current);
        match slot.result {
            Err(_) => slot,
            Ok((_, idx)) => if names.len() == 1 {
                slot
            } else {
                let made = spec_make_directory(
                    cipher,
                    slot.chains,
                    slot.image,
                    current,
                    idx,
                    names[0],
                );
                match made.result {
                    Err(_) => made,
                    Ok((child, _)) => spec_create_from(
                        cipher,
                        made.chains,
                        made.image,
                        child,
                        names.skip(1),
                    ),
                }
            },
        }
    }
}

/// Creates what `names` name, from the chain `start` on: the names are
/// followed through the directories that exist, and created from the first
/// that is absent on.
pub open spec fn spec_create_entry_at(
    cipher: Option<BlowfishView>,
    chains: ChainsView,
    image: Seq<u8>,
    start: u64,
    names: Seq<Seq<u8>>,
) -> Creation {
    match spec_validate_dir_path(chains, start, names) {
        Err(e) => Creation { chains, image, result: Err(e) },
        Ok((reached, rest)) => spec_create_from(cipher, chains, image, reached, rest),
    }
}

/// Creates the file that `path` names, with the directories on the way to
/// it that are absent. A path that names an entry that is there is refused
/// with `AlreadyExists`. The entry of the file has the last name of the
/// path, no payload, and zero timestamps; it is set in memory and then
/// stored.
pub open spec fn spec_create_file(archive: Pk2View, path: Seq<u8>) -> (Pk2View, Pk2Result<(u64, int)>) {
    match spec_check_root(path) {
        Err(e) => (archive, Err(e)),
        Ok(rest) => {
            let names = spec_components(rest);
            if names.len() == 0 || names.last() == parent_dir_name() {
                (archive, Err(Error::InvalidPath))
            } else if !spec_is_text(names.last()) {
                (archive, Err(Error::NonUnicodePath))
            } else if !valid_name(names.last()) {
                (archive, Err(Error::InvalidPath))
            } else if spec_resolve_entry(archive.chains, PK2_ROOT_BLOCK, names) is Ok {
                (archive, Err(Error::AlreadyExists))
            } else {
                let made = spec_create_entry_at(
                    archive.cipher,
                    archive.chains,
                    archive.image,
                    PK2_ROOT_BLOCK,
                    names,
                );
                match made.result {
                    Err(e) => (
                        Pk2View { image: made.image, cipher: archive.cipher, chains: made.chains },
                        Err(e),
                    ),
                    Ok((chain, idx)) => {
                        let before = made.chains[chain];
                        let file = PackEntryView::file(
                            names.last(),
                            0,
                            0,
                            chain_entries(before)[idx].next_block(),
                        );
                        let chains = made.chains.insert(chain, chain_with_entry(before, idx, file));
                        let at = spec_file_offset_for_entry(before, idx) as u64;
                        if can_write_entry(made.image, at) {
                            (
                                Pk2View {
                                    image: spec_write_entry(archive.cipher, made.image, at, file),
                                    cipher: archive.cipher,
                                    chains,
                                },
                                Ok((chain, idx)),
                            )
                        } else {
                            (
                                Pk2View { image: made.image, cipher: archive.cipher, chains },
                                Err(Error::Io(IoError::OutOfBounds)),
                            )
                        }
                    },
                }
            }
        },
    }
}

/// A list of entries without directories other than `.` and `..` leads to no
/// chain.
pub proof fn lemma_no_child_links(entries: Seq<PackEntryView>)
    requires
        forall|i: int| 0 <= i < entries.len() ==> !(#[trigger] entries[i]).is_normal_link(),
    ensures
        child_links(entries) == Seq::<u64>::empty(),
    decreases entries.len(),
{
    if entries.len() > 0 {
        lemma_no_child_links(entries.drop_last());
        assert(!entries[entries.len() - 1].is_normal_link());
    }
}

/// The header of a new archive is 256 bytes, and is read back from its
/// image.
pub proof fn lemma_fresh_header(cipher: Option<BlowfishView>)
    ensures
        header_for(cipher).wf(),
        spec_encode_header(header_for(cipher)).len() == PK2_FILE_HEADER_SIZE,
        spec_read_header(spec_fresh_image(cipher)) == Ok::<PackHeaderView, Error>(
            header_for(cipher),
        ),
        spec_fresh_image(cipher).len() == PK2_FILE_HEADER_SIZE + PK2_FILE_BLOCK_SIZE,
{
    let header = header_for(cipher);
    if cipher is Some {
        lemma_checksum_len(cipher->Some_0);
    }
    let front = spec_encode_header(header);
    let stored = spec_seal(cipher, spec_encode_entries(root_entries()));
    lemma_decode_encode_header(header, stored);
    lemma_encode_entries(root_entries());
    lemma_seal_len(cipher, spec_encode_entries(root_entries()));
    assert(front.subrange(0, 256) =~= front);
    assert(spec_fresh_image(cipher) =~= front + stored);
}

/// The root invariant: the chains of a new archive, read from its image,
/// are the chain of the root directory alone, a single block at offset 256
/// whose first entry is the directory `.` that names offset 256.
pub proof fn lemma_fresh_archive_loads(cipher: Option<BlowfishView>)
    ensures
        spec_load_archive(cipher, spec_fresh_image(cipher)) == Ok::<ChainsView, Error>(
            spec_fresh_archive(cipher).chains,
        ),
        chain_wf(seq![root_block()]),
{
    let header = header_for(cipher);
    let front = spec_encode_header(header);
    let image = spec_fresh_image(cipher);
    lemma_fresh_header(cipher);
    assert(root_block().wf());
    lemma_read_written_block(cipher, front, root_block());
    assert(spec_read_block(cipher, image, PK2_ROOT_BLOCK) == Ok::<PackBlockView, Error>(
        root_block(),
    ));
    assert(root_block().next_block() == 0);
    let chain = seq![root_block()];
    assert(chain_budget(image.len()) == 2);
    assert(spec_read_chain(cipher, image, PK2_ROOT_BLOCK, 2) == Ok::<Seq<PackBlockView>, Error>(
        chain,
    ));
    assert(chain_entries(chain) =~= root_entries());
    assert forall|i: int| 0 <= i < root_entries().len() implies !(
    #[trigger] root_entries()[i]).is_normal_link() by {}
    lemma_no_child_links(root_entries());
    let pending = seq![PK2_ROOT_BLOCK];
    let empty = Map::<u64, Seq<PackBlockView>>::empty();
    assert(pending.drop_last() + child_links(chain_entries(chain)) =~= Seq::<u64>::empty());
    let after = empty.insert(PK2_ROOT_BLOCK, chain);
    assert(spec_load(cipher, image, after, Seq::<u64>::empty(), (image.len() - 1) as nat)
        == Ok::<ChainsView, Error>(after));
    assert(spec_load(cipher, image, empty, pending, image.len()) == spec_load(
        cipher,
        image,
        after,
        pending.drop_last() + child_links(chain_entries(chain)),
        (image.len() - 1) as nat,
    ));
}

/// An archive that is created with a key and then opened with that key is
/// the archive that was created.
pub proof fn lemma_open_created(key: Seq<u8>)
    requires
        key.len() == 0 || valid_key_len(key.len()),
    ensures
        spec_open(spec_fresh_image(spec_cipher_for(key)), key) == Ok::<Pk2View, Error>(
            spec_fresh_archive(spec_cipher_for(key)),
        ),
{
    let cipher = spec_cipher_for(key);
    lemma_fresh_header(cipher);
    lemma_fresh_archive_loads(cipher);
}

/// An archive that is created with a key and then opened with a key that
/// gives another checksum, or that the cipher does not accept, is refused
/// with `InvalidKey`.
pub proof fn lemma_open_created_with_other_key(key: Seq<u8>, other: Seq<u8>)
    requires
        valid_key_len(key.len()),
        !valid_key_len(other.len()) || spec_checksum(spec_schedule(other)) != spec_checksum(
            spec_schedule(key),
        ),
    ensures
        spec_open(spec_fresh_image(spec_cipher_for(key)), other) == Err::<Pk2View, Error>(
            Error::InvalidKey,
        ),
{
    lemma_fresh_header(spec_cipher_for(key));
}

/// An archive: the stream that holds it, its cipher where it is encrypted,
/// and the cache of its chains.
pub struct Pk2 {
    file: Stream,
    blowfish: Option<Blowfish>,
    block_manager: BlockManager,
}

impl View for Pk2 {
    type V = Pk2View;

    closed spec fn view(&self) -> Pk2View {
        Pk2View {
            image: self.file@,
            cipher: owned_cipher_view(self.blowfish),
            chains: self.block_manager@,
        }
    }
}

impl Pk2 {
    /// Whether the cache of chains is sound.
    pub closed spec fn wf(&self) -> bool {
        self.block_manager.wf()
    }

    /// In a sound archive every chain is well formed.
    pub proof fn lemma_chains_wf(&self)
        requires
            self.wf(),
        ensures
            chains_wf(self@.chains),
    {
        self.block_manager.lemma_chains_wf();
    }

    /// Makes `file` a new archive, whatever it held before, and opens it.
    /// The archive is encrypted with `key` unless `key` is empty. A key that
    /// is neither empty nor one that the cipher accepts is refused with
    /// `InvalidKey`.
    pub fn create_new_in(file: Stream, key: &[u8]) -> (r: Pk2Result<Self>)
        ensures
            match r {
                Ok(archive) => (key@.len() == 0 || valid_key_len(key@.len())) && archive@
                    == spec_fresh_archive(spec_cipher_for(key@)) && archive.wf(),
                Err(e) => key@.len() != 0 && !valid_key_len(key@.len()) && e == Error::InvalidKey,
            },
    {
        let mut file = file;
        let blowfish = if key.len() == 0 {
            None
        } else {
            match Blowfish::new(key) {
                Ok(bf) => Some(bf),
                Err(e) => {
                    return Err(e);
                },
            }
        };
        let header = match &blowfish {
            Some(bf) => PackHeader::new_encrypted(bf),
            None => PackHeader::default(),
        };
        let ghost cipher = spec_cipher_for(key@);
        proof {
            lemma_fresh_header(cipher);
            lemma_fresh_archive_loads(cipher);
        }
        let mut front: Vec<u8> = Vec::new();
        header.to_writer(&mut front);
        assert(front@ =~= spec_encode_header(header_for(cipher)));
        file.truncate();
        match file.write_all_at(0, front.as_slice()) {
            Ok(_) => {},
            Err(e) => {
                return Err(e);
            },
        }
        assert(file@ =~= front@);
        let mut block = PackBlock::new(PK2_ROOT_BLOCK);
        match block.get_mut(0) {
            Some(slot) => {
                *slot = PackEntry::current_dir(ChainIndex(PK2_ROOT_BLOCK));
            },
            None => {},
        }
        assert(block@.entries =~= root_entries());
        match write_block(blowfish.as_ref(), &mut file, PK2_ROOT_BLOCK, &block) {
            Ok(_) => {},
            Err(e) => {
                return Err(e);
            },
        }
        let block_manager = match BlockManager::new(blowfish.as_ref(), &file) {
            Ok(block_manager) => block_manager,
            Err(e) => {
                return Err(e);
            },
        };
        Ok(Pk2 { file, blowfish, block_manager })
    }

    /// Opens the archive in `file` with `key`.
    pub fn open_in(file: Stream, key: &[u8]) -> (r: Pk2Result<Self>)
        ensures
            match r {
                Ok(archive) => spec_open(file@, key@) == Ok::<Pk2View, Error>(archive@)
                    && archive.wf(),
                Err(e) => spec_open(file@, key@) == Err::<Pk2View, Error>(e),
            },
    {
        let front = match file.read_exact_at(0, PK2_FILE_HEADER_SIZE) {
            Ok(front) => front,
            Err(e) => {
                return Err(e);
            },
        };
        let header = match PackHeader::from_reader(front.as_slice()) {
            Ok(header) => header,
            Err(e) => {
                return Err(e);
            },
        };
        proof {
            let whole = file@;
            let part = whole.subrange(0, 256);
            assert(part.subrange(0, 30) =~= whole.subrange(0, 30));
            assert(part.subrange(30, 32) =~= whole.subrange(30, 32));
            assert(part.subrange(33, 49) =~= whole.subrange(33, 49));
        }
        match header.validate_sig() {
            Ok(_) => {},
            Err(e) => {
                return Err(e);
            },
        }
        let blowfish = if header.encrypted() {
            let bf = match Blowfish::new(key) {
                Ok(bf) => bf,
                Err(e) => {
                    return Err(e);
                },
            };
            let sum = checksum(&bf);
            match header.verify(sum.as_slice()) {
                Ok(_) => {},
                Err(e) => {
                    return Err(e);
                },
            }
            Some(bf)
        } else {
            None
        };
        let block_manager = match BlockManager::new(blowfish.as_ref(), &file) {
            Ok(block_manager) => block_manager,
            Err(e) => {
                return Err(e);
            },
        };
        Ok(Pk2 { file, blowfish, block_manager })
    }

    /// Closes the archive and hands back the stream that holds it.
    pub fn into_inner(self) -> (r: Stream)
        ensures
            r@ == self@.image,
    {
        self.file
    }

    /// The stream that holds the archive.
    pub fn stream(&self) -> (r: &Stream)
        ensures
            r@ == self@.image,
    {
        &self.file
    }

    /// The number of chains of the archive.
    pub fn chain_count(&self) -> (r: usize)
        requires
            self.wf(),
        ensures
            r == self@.chains.dom().len(),
            self@.chains.dom().finite(),
    {
        self.block_manager.len()
    }

    /// The chain under `chain`, if the archive has one.
    pub fn get_chain(&self, chain: ChainIndex) -> (r: Option<&PackBlockChain>)
        requires
            self.wf(),
        ensures
            r is Some <==> self@.chains.contains_key(chain.0),
            r is Some ==> r->Some_0@ == self@.chains[chain.0] && r->Some_0.wf(),
    {
        self.block_manager.get(chain)
    }

    /// The entry at position `entry` of the chain under `chain`, if there is
    /// one.
    pub fn get_entry(&self, chain: ChainIndex, entry: usize) -> (r: Option<&PackEntry>)
        requires
            self.wf(),
        ensures
            r is Some <==> spec_entry(self@.chains, chain.0, entry as int) is Some,
            r is Some ==> r->Some_0@ == spec_entry(self@.chains, chain.0, entry as int)->Some_0,
    {
        match self.block_manager.get(chain) {
            Some(found) => found.get(entry),
            None => None,
        }
    }

    /// Accepts a file and refuses anything else with `ExpectedFile`.
    pub fn is_file(entry: &PackEntry) -> (r: Pk2Result<()>)
        ensures
            r == (if entry@ is File {
                Ok::<(), Error>(())
            } else {
                Err::<(), Error>(Error::ExpectedFile)
            }),
    {
        if entry.is_file() {
            Ok(())
        } else {
            Err(Error::ExpectedFile)
        }
    }

    /// Accepts a directory and refuses anything else with
    /// `ExpectedDirectory`.
    pub fn is_dir(entry: &PackEntry) -> (r: Pk2Result<()>)
        ensures
            r == (if entry@ is Directory {
                Ok::<(), Error>(())
            } else {
                Err::<(), Error>(Error::ExpectedDirectory)
            }),
    {
        if entry.is_dir() {
            Ok(())
        } else {
            Err(Error::ExpectedDirectory)
        }
    }

    fn locate_file(&self, path: &[u8]) -> (r: Pk2Result<(ChainIndex, usize)>)
        requires
            self.wf(),
        ensures
            match r {
                Ok((chain, idx)) => spec_open_file(self@.chains, path@) == Ok::<(u64, int), Error>(
                    (chain.0, idx as int),
                ) && spec_entry(self@.chains, chain.0, idx as int) is Some && spec_entry(
                    self@.chains,
                    chain.0,
                    idx as int,
                )->Some_0 is File,
                Err(e) => spec_open_file(self@.chains, path@) == Err::<(u64, int), Error>(e),
            },
    {
        let rest = match check_root(path) {
            Ok(rest) => rest,
            Err(e) => {
                return Err(e);
            },
        };
        match self.block_manager.resolve_path_to_entry_and_parent(ChainIndex(PK2_ROOT_BLOCK), rest) {
            Ok((chain, idx, entry)) => match Self::is_file(entry) {
                Ok(_) => Ok((chain, idx)),
                Err(e) => Err(e),
            },
            Err(e) => Err(e),
        }
    }

    /// Opens the file that `path` names: a path from the root, which starts
    /// with `/`.
    pub fn open_file<'a>(&'a self, path: &str) -> (r: Pk2Result<File<'a>>)
        requires
            self.wf(),
        ensures
            match r {
                Ok(file) => spec_open_file(self@.chains, path.spec_bytes()) == Ok::<
                    (u64, int),
                    Error,
                >((file.spec_chain().0, file.spec_entry_index() as int)) && file.wf()
                    && file.spec_archive() == self,
                Err(e) => spec_open_file(self@.chains, path.spec_bytes()) == Err::<
                    (u64, int),
                    Error,
                >(e),
            },
    {
        match self.locate_file(path.as_bytes()) {
            Ok((chain, idx)) => Ok(File::new(self, chain, idx)),
            Err(e) => Err(e),
        }
    }

    /// Opens the file that `path` names, to be changed.
    pub fn open_file_mut<'a>(&'a mut self, path: &str) -> (r: Pk2Result<FileMut<'a>>)
        requires
            old(self).wf(),
        ensures
            match r {
                Ok(file) => spec_open_file(old(self)@.chains, path.spec_bytes()) == Ok::<
                    (u64, int),
                    Error,
                >((file.chain.0, file.entry_index as int)) && file.wf() && *file.archive == *old(
                    self,
                ) && *final(file.archive) == *final(self),
                Err(e) => spec_open_file(old(self)@.chains, path.spec_bytes()) == Err::<
                    (u64, int),
                    Error,
                >(e) && *final(self) == *old(self),
            },
    {
        match self.locate_file(path.as_bytes()) {
            Ok((chain, idx)) => Ok(FileMut::new(self, chain, idx)),
            Err(e) => Err(e),
        }
    }

    /// Opens the directory that `path` names. The path `/` names the root
    /// directory.
    pub fn open_directory<'a>(&'a self, path: &str) -> (r: Pk2Result<Directory<'a>>)
        requires
            self.wf(),
        ensures
            match r {
                Ok(dir) => spec_open_directory(self@.chains, path.spec_bytes()) == Ok::<
                    (u64, int),
                    Error,
                >((dir.spec_chain().0, dir.spec_entry_index() as int)) && dir.wf()
                    && dir.spec_archive() == self,
                Err(e) => spec_open_directory(self@.chains, path.spec_bytes()) == Err::<
                    (u64, int),
                    Error,
                >(e),
            },
    {
        let rest = match check_root(path.as_bytes()) {
            Ok(rest) => rest,
            Err(e) => {
                return Err(e);
            },
        };
        if components(rest).len() == 0 {
            return Ok(Directory::new(self, ChainIndex(PK2_ROOT_BLOCK_VIRTUAL), 0));
        }
        let (chain, idx) = match self.block_manager.resolve_path_to_entry_and_parent(
            ChainIndex(PK2_ROOT_BLOCK),
            rest,
        ) {
            Ok((chain, idx, entry)) => {
                match Self::is_dir(entry) {
                    Ok(_) => {},
                    Err(e) => {
                        return Err(e);
                    },
                }
                if chain.0 == PK2_ROOT_BLOCK_VIRTUAL {
                    return Err(Error::InvalidChainIndex);
                }
                (chain, idx)
            },
            Err(e) => {
                return Err(e);
            },
        };
        Ok(Directory::new(self, chain, idx))
    }

    #[verifier::spinoff_prover]
    /// Finds a slot for a new entry in the chain `current`, and appends a
    /// block to the chain where it is full.
    fn find_or_create_slot(&mut self, current: ChainIndex) -> (r: Pk2Result<usize>)
        requires
            old(self).wf(),
            old(self)@.chains.contains_key(current.0),
        ensures
            final(self).wf(),
            final(self)@.cipher == old(self)@.cipher,
            ({
                let slot = spec_find_slot(
                    old(self)@.cipher,
                    old(self)@.chains,
                    old(self)@.image,
                    current.0,
                );
                &&& final(self)@.chains == slot.chains
                &&& final(self)@.image == slot.image
                &&& match r {
                    Ok(idx) => slot.result == Ok::<(u64, int), Error>((current.0, idx as int))
                        && spec_entry(final(self)@.chains, current.0, idx as int) is Some,
                    Err(e) => slot.result == Err::<(u64, int), Error>(e),
                }
            }),
    {
        let ghost before = old(self)@.chains[current.0];
        proof {
            self.block_manager.lemma_chains_wf();
            lemma_first_index(chain_entries(before), unused());
        }
        match self.block_manager.get_mut(current) {
            Some(chain) => {
                match chain.first_unused() {
                    Some(idx) => {
                        assert(self@.chains =~= old(self)@.chains);
                        Ok(idx)
                    },
                    None => {
                        if chain.num_blocks() >= PK2_MAX_CHAIN_BLOCKS {
                            assert(self@.chains =~= old(self)@.chains);
                            return Err(Error::MalformedChain);
                        }
                        let (offset, block) = match allocate_empty_block(
                            self.blowfish.as_ref(),
                            &mut self.file,
                        ) {
                            Ok(pair) => pair,
                            Err(e) => {
                                assert(self@.chains =~= old(self)@.chains);
                                return Err(e);
                            },
                        };
                        let idx = chain.num_entries();
                        chain.push_and_link(block);
                        match write_chain_entry(
                            self.blowfish.as_ref(),
                            &mut self.file,
                            chain,
                            idx - 1,
                        ) {
                            Ok(_) => Ok(idx),
                            Err(e) => Err(e),
                        }
                    },
                }
            },
            None => Err(Error::InvalidChainIndex),
        }
    }

    #[verifier::spinoff_prover]
    /// Makes the slot `idx` of the chain `parent` a directory named `name`
    /// with a chain of its own, and gives that chain.
    fn make_directory(&mut self, parent: ChainIndex, idx: usize, name: &[u8]) -> (r: Pk2Result<
        ChainIndex,
    >)
        requires
            old(self).wf(),
            spec_entry(old(self)@.chains, parent.0, idx as int) is Some,
            valid_name(name@),
        ensures
            final(self).wf(),
            final(self)@.cipher == old(self)@.cipher,
            ({
                let made = spec_make_directory(
                    old(self)@.cipher,
                    old(self)@.chains,
                    old(self)@.image,
                    parent.0,
                    idx as int,
                    name@,
                );
                &&& final(self)@.chains == made.chains
                &&& final(self)@.image == made.image
                &&& match r {
                    Ok(child) => made.result == Ok::<(u64, int), Error>((child.0, idx as int))
                        && final(self)@.chains.contains_key(child.0),
                    Err(e) => made.result == Err::<(u64, int), Error>(e),
                }
            }),
    {
        proof {
            self.block_manager.lemma_chains_wf();
        }
        let made = match self.block_manager.get_mut(parent) {
            Some(chain) => allocate_new_block_chain(
                self.blowfish.as_ref(),
                &mut self.file,
                chain,
                name,
                idx,
            ),
            None => Err(Error::InvalidChainIndex),
        };
        match made {
            Ok(chain) => {
                let child = chain.chain_index();
                self.block_manager.insert(child, chain);
                Ok(child)
            },
            Err(e) => {
                proof {
                    if !can_append_block(old(self)@.image) {
                        assert(self@.chains =~= old(self)@.chains);
                    }
                }
                Err(e)
            },
        }
    }

    #[verifier::spinoff_prover]
    /// Follows `path` from the chain `chain` through the directories that
    /// exist and creates what is absent: a directory with a chain of its own
    /// for each name but the last. Gives the chain and the position of the
    /// slot for the last name, which stays as it is. A path that names
    /// nothing new is refused with `AlreadyExists`.
    ///
    /// What was created before a failure stays: nothing is undone.
    pub fn create_entry_at(&mut self, chain: ChainIndex, path: &[u8]) -> (r: Pk2Result<
        (ChainIndex, usize),
    >)
        requires
            old(self).wf(),
        ensures
            final(self).wf(),
            final(self)@.cipher == old(self)@.cipher,
            ({
                let made = spec_create_entry_at(
                    old(self)@.cipher,
                    old(self)@.chains,
                    old(self)@.image,
                    chain.0,
                    spec_components(path@),
                );
                &&& final(self)@.chains == made.chains
                &&& final(self)@.image == made.image
                &&& match r {
                    Ok((reached, idx)) => made.result == Ok::<(u64, int), Error>(
                        (reached.0, idx as int),
                    ) && spec_entry(final(self)@.chains, reached.0, idx as int) is Some,
                    Err(e) => made.result == Err::<(u64, int), Error>(e),
                }
            }),
    {
        let (start, names) = match self.block_manager.validate_dir_path_until(chain, path) {
            Ok(found) => found,
            Err(e) => {
                return Err(e);
            },
        };
        let ghost all = names_view(names@);
        let ghost goal = spec_create_from(
            old(self)@.cipher,
            old(self)@.chains,
            old(self)@.image,
            start.0,
            all,
        );
        let mut current: ChainIndex = start;
        let mut i: usize = 0;
        assert(all.subrange(0, all.len() as int) =~= all);
        while i < names.len()
            invariant
                i <= names.len(),
                self.wf(),
                self@.cipher == old(self)@.cipher,
                all == names_view(names@),
                goal == spec_create_entry_at(
                    old(self)@.cipher,
                    old(self)@.chains,
                    old(self)@.image,
                    chain.0,
                    spec_components(path@),
                ),
                goal == spec_create_from(
                    self@.cipher,
                    self@.chains,
                    self@.image,
                    current.0,
                    all.subrange(i as int, all.len() as int),
                ),
            decreases names.len() - i,
        {
            let ghost rest = all.subrange(i as int, all.len() as int);
            assert(rest.skip(1) =~= all.subrange(i + 1, all.len() as int));
            assert(rest[0] == names[i as int]@);
            let name = names[i].as_slice();
            let parent = match self.block_manager.get(current) {
                Some(found) => {
                    if is_parent_dir(name) {
                        Some(found.find_block_chain_index_of(name))
                    } else {
                        None
                    }
                },
                None => {
                    return Err(Error::InvalidChainIndex);
                },
            };
            match parent {
                Some(Ok(up)) => {
                    current = up;
                },
                Some(Err(Error::NotFound)) => {
                    return Err(Error::InvalidPath);
                },
                Some(Err(e)) => {
                    return Err(e);
                },
                None => {
                    if !is_text(name) {
                        return Err(Error::NonUnicodePath);
                    }
                    if !is_valid_name(name) {
                        return Err(Error::InvalidPath);
                    }
                    let idx = match self.find_or_create_slot(current) {
                        Ok(idx) => idx,
                        Err(e) => {
                            return Err(e);
                        },
                    };
                    if i + 1 < names.len() {
                        current = match self.make_directory(current, idx, name) {
                            Ok(child) => child,
                            Err(e) => {
                                return Err(e);
                            },
                        };
                    } else {
                        return Ok((current, idx));
                    }
                },
            }
            i += 1;
        }
        Err(Error::AlreadyExists)
    }

    #[verifier::spinoff_prover]
    /// Sets the entry at position `idx` of the chain `chain` to an empty
    /// file named `name`, in memory and then in the stream.
    fn store_file_entry(&mut self, chain: ChainIndex, idx: usize, name: &[u8]) -> (r: Pk2Result<
        (),
    >)
        requires
            old(self).wf(),
            spec_entry(old(self)@.chains, chain.0, idx as int) is Some,
            valid_name(name@),
        ensures
            final(self).wf(),
            final(self)@.cipher == old(self)@.cipher,
            ({
                let before = old(self)@.chains[chain.0];
                let file = PackEntryView::file(
                    name@,
                    0,
                    0,
                    chain_entries(before)[idx as int].next_block(),
                );
                let at = spec_file_offset_for_entry(before, idx as int) as u64;
                &&& final(self)@.chains == old(self)@.chains.insert(
                    chain.0,
                    chain_with_entry(before, idx as int, file),
                )
                &&& spec_entry(final(self)@.chains, chain.0, idx as int) == Some(file)
                &&& match r {
                    Ok(_) => can_write_entry(old(self)@.image, at) && final(self)@.image
                        == spec_write_entry(old(self)@.cipher, old(self)@.image, at, file),
                    Err(e) => !can_write_entry(old(self)@.image, at) && final(self)@.image == old(
                        self,
                    )@.image && e == Error::Io(IoError::OutOfBounds),
                }
            }),
    {
        let ghost before = old(self)@.chains[chain.0];
        let ghost file = PackEntryView::file(
            name@,
            0,
            0,
            chain_entries(before)[idx as int].next_block(),
        );
        proof {
            self.block_manager.lemma_chains_wf();
            lemma_chain_with_entry(before, idx as int, file);
        }
        match self.block_manager.get_mut(chain) {
            Some(found) => {
                match found.get_mut(idx) {
                    Some(entry) => {
                        let next = entry.next_block();
                        *entry = PackEntry::new_file(name, 0, 0, next);
                    },
                    None => {},
                }
                write_chain_entry(self.blowfish.as_ref(), &mut self.file, found, idx)
            },
            None => Ok(()),
        }
    }

    #[verifier::spinoff_prover]
    /// Creates the file that `path` names, and every directory on the way
    /// to it that is absent. The new file has no payload. A path that names
    /// a file or directory that is there is refused with `AlreadyExists`.
    ///
    /// What was created before a failure stays: nothing is undone.
    pub fn create_file<'a>(&'a mut self, path: &str) -> (r: Pk2Result<FileMut<'a>>)
        requires
            old(self).wf(),
        ensures
            match r {
                Ok(file) => spec_create_file(old(self)@, path.spec_bytes()).1 == Ok::<
                    (u64, int),
                    Error,
                >((file.chain.0, file.entry_index as int)) && file.wf() && file.archive@
                    == spec_create_file(old(self)@, path.spec_bytes()).0 && *final(file.archive)
                    == *final(self),
                Err(e) => spec_create_file(old(self)@, path.spec_bytes()).1 == Err::<
                    (u64, int),
                    Error,
                >(e) && final(self)@ == spec_create_file(old(self)@, path.spec_bytes()).0
                    && final(self).wf(),
            },
    {
        let rest = match check_root(path.as_bytes()) {
            Ok(rest) => rest,
            Err(e) => {
                return Err(e);
            },
        };
        let names = components(rest);
        if names.len() == 0 {
            return Err(Error::InvalidPath);
        }
        let file_name = names[names.len() - 1].as_slice();
        assert(file_name@ == spec_components(rest@).last());
        if is_parent_dir(file_name) {
            return Err(Error::InvalidPath);
        }
        if !is_text(file_name) {
            return Err(Error::NonUnicodePath);
        }
        if !is_valid_name(file_name) {
            return Err(Error::InvalidPath);
        }
        if self.block_manager.resolve_path_to_entry_and_parent(
            ChainIndex(PK2_ROOT_BLOCK),
            rest,
        ).is_ok() {
            return Err(Error::AlreadyExists);
        }
        let (chain, idx) = match self.create_entry_at(ChainIndex(PK2_ROOT_BLOCK), rest) {
            Ok(found) => found,
            Err(e) => {
                return Err(e);
            },
        };
        match self.store_file_entry(chain, idx, file_name) {
            Ok(_) => Ok(FileMut::new(self, chain, idx)),
            Err(e) => Err(e),
        }
    }

    #[verifier::spinoff_prover]
    /// Makes the entry at position `idx` of the chain `chain` unused, in
    /// memory and then in the stream.
    fn clear_entry(&mut self, chain: ChainIndex, idx: usize) -> (r: Pk2Result<()>)
        requires
            old(self).wf(),
            spec_entry(old(self)@.chains, chain.0, idx as int) is Some,
        ensures
            final(self).wf(),
            final(self)@.cipher == old(self)@.cipher,
            ({
                let before = old(self)@.chains[chain.0];
                let cleared = PackEntryView::Empty {
                    next_block: chain_entries(before)[idx as int].next_block(),
                };
                let at = spec_file_offset_for_entry(before, idx as int) as u64;
                &&& final(self)@.chains == old(self)@.chains.insert(
                    chain.0,
                    chain_with_entry(before, idx as int, cleared),
                )
                &&& match r {
                    Ok(_) => can_write_entry(old(self)@.image, at) && final(self)@.image
                        == spec_write_entry(old(self)@.cipher, old(self)@.image, at, cleared),
                    Err(e) => !can_write_entry(old(self)@.image, at) && final(self)@.image == old(
                        self,
                    )@.image && e == Error::Io(IoError::OutOfBounds),
                }
            }),
    {
        let ghost before = old(self)@.chains[chain.0];
        let ghost cleared = PackEntryView::Empty {
            next_block: chain_entries(before)[idx as int].next_block(),
        };
        proof {
            self.block_manager.lemma_chains_wf();
            lemma_chain_with_entry(before, idx as int, cleared);
        }
        match self.block_manager.get_mut(chain) {
            Some(found) => {
                match found.get_mut(idx) {
                    Some(entry) => {
                        entry.clear();
                    },
                    None => {},
                }
                write_chain_entry(self.blowfish.as_ref(), &mut self.file, found, idx)
            },
            None => Ok(()),
        }
    }

    #[verifier::spinoff_prover]
    /// Deletes the file that `path` names: its entry becomes unused, in
    /// memory and in the stream. The bytes of the file stay where they are,
    /// and the stream keeps its length.
    pub fn delete_file(&mut self, path: &str) -> (r: Pk2Result<()>)
        requires
            old(self).wf(),
        ensures
            final(self).wf(),
            final(self)@ == spec_delete_file(old(self)@, path.spec_bytes()).0,
            r == spec_delete_file(old(self)@, path.spec_bytes()).1,
            final(self)@.image.len() == old(self)@.image.len(),
    {
        let (chain, idx) = match self.locate_file(path.as_bytes()) {
            Ok(found) => found,
            Err(e) => {
                return Err(e);
            },
        };
        let r = self.clear_entry(chain, idx);
        proof {
            lemma_delete_outcome(old(self)@, path.spec_bytes(), chain.0, idx as int, self@, r);
        }
        r
    }
}

#[verifier::spinoff_prover]
/// What `spec_delete_file` says of an archive in which the file was found at
/// position `idx` of the chain `chain`.
proof fn lemma_delete_outcome(
    archive: Pk2View,
    path: Seq<u8>,
    chain: u64,
    idx: int,
    after: Pk2View,
    r: Pk2Result<()>,
)
    requires
        spec_open_file(archive.chains, path) == Ok::<(u64, int), Error>((chain, idx)),
        after.cipher == archive.cipher,
        ({
            let before = archive.chains[chain];
            let cleared = PackEntryView::Empty {
                next_block: chain_entries(before)[idx].next_block(),
            };
            let at = spec_file_offset_for_entry(before, idx) as u64;
            &&& after.chains == archive.chains.insert(
                chain,
                chain_with_entry(before, idx, cleared),
            )
            &&& match r {
                Ok(_) => can_write_entry(archive.image, at) && after.image == spec_write_entry(
                    archive.cipher,
                    archive.image,
                    at,
                    cleared,
                ),
                Err(e) => !can_write_entry(archive.image, at) && after.image == archive.image && e
                    == Error::Io(IoError::OutOfBounds),
            }
        }),
    ensures
        after == spec_delete_file(archive, path).0,
        r == spec_delete_file(archive, path).1,
        after.image.len() == archive.image.len(),
{
    let before = archive.chains[chain];
    let cleared = PackEntryView::Empty { next_block: chain_entries(before)[idx].next_block() };
    let at = spec_file_offset_for_entry(before, idx) as u64;
    assert(after.image.len() == archive.image.len()) by {
        if r is Ok {
            lemma_entry_write_keeps_len(archive.cipher, archive.image, at, cleared);
        }
    }
    let outcome = spec_delete_file(archive, path);
    match r {
        Ok(u) => {
            assert(can_write_entry(archive.image, at));
            assert(outcome.1 == Ok::<(), Error>(()));
            assert(u == ());
        },
        Err(e) => {
            assert(outcome.1 == Err::<(), Error>(Error::Io(IoError::OutOfBounds)));
        },
    }
}

#[verifier::spinoff_prover]
/// Writing an entry over bytes that are there keeps the length of the image.
pub proof fn lemma_entry_write_keeps_len(
    bf: Option<BlowfishView>,
    image: Seq<u8>,
    at: u64,
    entry: PackEntryView,
)
    requires
        entry.wf(),
        can_write_entry(image, at),
    ensures
        spec_write_entry(bf, image, at, entry).len() == image.len(),
{
    crate::raw::entry::lemma_encode_len(entry);
    lemma_seal_len(bf, crate::raw::entry::spec_encode(entry));
    lemma_write_then_read(image, at as int, spec_seal(bf, crate::raw::entry::spec_encode(entry)));
}

} // verus!
