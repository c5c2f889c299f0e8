//! The byte stream that holds an archive, and the reads and writes of whole
//! blocks and single entries through the optional cipher.

use vstd::prelude::*;
use crate::blowfish::{
    Blowfish, BlowfishView, spec_decrypt, spec_encrypt, lemma_decrypt_encrypt, lemma_decrypt_len,
    lemma_encrypt_len,
};
use crate::bytes::copy_range;
use crate::constants::{PK2_FILE_BLOCK_SIZE, PK2_FILE_ENTRY_SIZE};
use crate::error::{Error, IoError, Pk2Result};
use crate::raw::ChainIndex;
use crate::raw::block_chain::{
    PackBlock, PackBlockChain, PackBlockView, chain_entries, chain_with_entry,
    empty_entries, spec_decode_entries, spec_encode_entries, spec_file_offset_for_entry,
    lemma_chain_with_entry, lemma_decode_encode_entries, lemma_encode_entries,
};
use crate::raw::entry::{
    PackEntry, PackEntryView, current_dir_name, parent_dir_name, spec_encode, valid_name,
};

verus! {

/// The bytes of `image` with `bytes` written over them from position `at`
/// on. What reaches past the end makes the image longer.
pub open spec fn spec_write(image: Seq<u8>, at: int, bytes: Seq<u8>) -> Seq<u8> {
    image.subrange(0, at) + bytes + (if at + bytes.len() < image.len() {
        image.subrange(at + bytes.len(), image.len() as int)
    } else {
        Seq::empty()
    })
}

/// What the cipher, where there is one, makes of plain bytes.
pub open spec fn spec_seal(bf: Option<BlowfishView>, bytes: Seq<u8>) -> Seq<u8> {
    match bf {
        Some(v) => spec_encrypt(v, bytes),
        None => bytes,
    }
}

/// What the cipher, where there is one, makes of stored bytes.
pub open spec fn spec_unseal(bf: Option<BlowfishView>, bytes: Seq<u8>) -> Seq<u8> {
    match bf {
        Some(v) => spec_decrypt(v, bytes),
        None => bytes,
    }
}

/// The subkeys of an optional cipher.
pub open spec fn cipher_view(bf: Option<&Blowfish>) -> Option<BlowfishView> {
    match bf {
        Some(cipher) => Some(cipher@),
        None => None,
    }
}

/// The block that is stored at `offset` in `image`.
pub open spec fn spec_read_block(bf: Option<BlowfishView>, image: Seq<u8>, offset: u64) -> Pk2Result<
    PackBlockView,
> {
    if offset + PK2_FILE_BLOCK_SIZE > image.len() {
        Err(Error::Io(IoError::UnexpectedEof))
    } else {
        match spec_decode_entries(
            spec_unseal(bf, image.subrange(offset as int, offset + PK2_FILE_BLOCK_SIZE)),
        ) {
            Ok(entries) => Ok(PackBlockView { offset, entries }),
            Err(e) => Err(e),
        }
    }
}

/// Whether a block may be written at `offset`: over bytes that are there, or
/// directly behind the last of them.
pub open spec fn can_write_block(image: Seq<u8>, offset: u64) -> bool {
    &&& offset + PK2_FILE_BLOCK_SIZE <= usize::MAX
    &&& (offset + PK2_FILE_BLOCK_SIZE <= image.len() || offset == image.len())
}

/// The image after the entries of a block are written at `offset`.
pub open spec fn spec_write_block(
    bf: Option<BlowfishView>,
    image: Seq<u8>,
    offset: u64,
    entries: Seq<PackEntryView>,
) -> Seq<u8> {
    spec_write(image, offset as int, spec_seal(bf, spec_encode_entries(entries)))
}

/// Whether an entry may be written at `offset`: over bytes that are there.
pub open spec fn can_write_entry(image: Seq<u8>, offset: u64) -> bool {
    offset + PK2_FILE_ENTRY_SIZE <= image.len()
}

/// The image after one entry is written at `offset`.
pub open spec fn spec_write_entry(
    bf: Option<BlowfishView>,
    image: Seq<u8>,
    offset: u64,
    entry: PackEntryView,
) -> Seq<u8> {
    spec_write(image, offset as int, spec_seal(bf, spec_encode(entry)))
}

/// The first block of a new directory at `offset` whose parent is the chain
/// at `parent`: `.`, `..`, and eighteen unused entries.
pub open spec fn new_chain_entries(offset: u64, parent: u64) -> Seq<PackEntryView> {
    empty_entries().update(0, PackEntryView::directory(current_dir_name(), offset, 0)).update(
        1,
        PackEntryView::directory(parent_dir_name(), parent, 0),
    )
}

/// Sealing keeps the length.
pub proof fn lemma_seal_len(bf: Option<BlowfishView>, bytes: Seq<u8>)
    ensures
        spec_seal(bf, bytes).len() == bytes.len(),
        spec_unseal(bf, bytes).len() == bytes.len(),
{
    if bf is Some {
        lemma_encrypt_len(bf->Some_0, bytes);
        lemma_decrypt_len(bf->Some_0, bytes);
    }
}

/// What is written is what is read at the same place.
pub proof fn lemma_write_then_read(image: Seq<u8>, at: int, bytes: Seq<u8>)
    requires
        0 <= at <= image.len(),
    ensures
        spec_write(image, at, bytes).len() == (if at + bytes.len() < image.len() {
            image.len()
        } else {
            (at + bytes.len()) as nat
        }),
        spec_write(image, at, bytes).subrange(at, at + bytes.len()) == bytes,
        spec_write(image, at, bytes).subrange(0, at) == image.subrange(0, at),
{
    let after = spec_write(image, at, bytes);
    assert(after.subrange(at, at + bytes.len()) =~= bytes);
    assert(after.subrange(0, at) =~= image.subrange(0, at));
}

/// A block that is written is the block that is read at the same offset.
pub proof fn lemma_read_written_block(
    bf: Option<BlowfishView>,
    image: Seq<u8>,
    block: PackBlockView,
)
    requires
        block.wf(),
        can_write_block(image, block.offset),
    ensures
        spec_read_block(bf, spec_write_block(bf, image, block.offset, block.entries), block.offset)
            == Ok::<PackBlockView, Error>(block),
{
    let plain = spec_encode_entries(block.entries);
    let stored = spec_seal(bf, plain);
    lemma_decode_encode_entries(block.entries);
    lemma_seal_len(bf, plain);
    lemma_write_then_read(image, block.offset as int, stored);
    if bf is Some {
        lemma_decrypt_encrypt(bf->Some_0, plain);
    }
}

/// An archive held in memory: the bytes of the file, read and written at
/// given offsets.
pub struct Stream {
    data: Vec<u8>,
}

impl View for Stream {
    type V = Seq<u8>;

    closed spec fn view(&self) -> Seq<u8> {
        self.data@
    }
}

impl Stream {
    /// A stream without bytes.
    pub fn new() -> (r: Self)
        ensures
            r@ == Seq::<u8>::empty(),
    {
        Stream { data: Vec::new() }
    }

    /// The stream that holds `data`.
    pub fn from_vec(data: Vec<u8>) -> (r: Self)
        ensures
            r@ == data@,
    {
        Stream { data }
    }

    /// Drops all bytes of the stream.
    pub fn truncate(&mut self)
        ensures
            final(self)@ == Seq::<u8>::empty(),
    {
        self.data.clear();
    }

    /// The bytes of the stream.
    pub fn into_vec(self) -> (r: Vec<u8>)
        ensures
            r@ == self@,
    {
        self.data
    }

    /// The bytes of the stream.
    pub fn as_slice(&self) -> (r: &[u8])
        ensures
            r@ == self@,
    {
        self.data.as_slice()
    }

    /// The number of bytes in the stream.
    pub fn len(&self) -> (r: u64)
        ensures
            r == self@.len(),
            r <= usize::MAX,
    {
        self.data.len() as u64
    }

    /// The `len` bytes from `offset` on, or `UnexpectedEof` where the stream
    /// ends before the last of them.
    pub fn read_exact_at(&self, offset: u64, len: usize) -> (r: Pk2Result<Vec<u8>>)
        ensures
            match r {
                Ok(bytes) => offset + len <= self@.len() && self@.len() <= usize::MAX && bytes@
                    == self@.subrange(offset as int, offset + len),
                Err(e) => offset + len > self@.len() && e == Error::Io(IoError::UnexpectedEof),
            },
    {
        let total = self.data.len();
        if offset > total as u64 || len > total - offset as usize {
            return Err(Error::Io(IoError::UnexpectedEof));
        }
        let from = offset as usize;
        Ok(copy_range(self.data.as_slice(), from, from + len))
    }

    /// Writes `bytes` from `offset` on, over what is there and past the end
    /// where they reach further. A write that would start behind the end, or
    /// end where the machine cannot count, is refused with `OutOfBounds` and
    /// changes nothing.
    pub fn write_all_at(&mut self, offset: u64, bytes: &[u8]) -> (r: Pk2Result<()>)
        ensures
            match r {
                Ok(_) => offset <= old(self)@.len() && offset + bytes@.len() <= usize::MAX
                    && final(self)@ == spec_write(old(self)@, offset as int, bytes@),
                Err(e) => !(offset <= old(self)@.len() && offset + bytes@.len() <= usize::MAX)
                    && e == Error::Io(IoError::OutOfBounds) && final(self)@ == old(self)@,
            },
    {
        let total = self.data.len();
        if offset > total as u64 || bytes.len() > usize::MAX - offset as usize {
            return Err(Error::Io(IoError::OutOfBounds));
        }
        let at = offset as usize;
        let mut i: usize = 0;
        assert(self@ =~= spec_write(old(self)@, at as int, bytes@.subrange(0, 0)));
        while i < bytes.len()
            invariant
                i <= bytes@.len(),
                at <= old(self)@.len(),
                at + bytes@.len() <= usize::MAX,
                self@ == spec_write(old(self)@, at as int, bytes@.subrange(0, i as int)),
            decreases bytes.len() - i,
        {
            if at + i < self.data.len() {
                self.data[at + i] = bytes[i];
            } else {
                self.data.push(bytes[i]);
            }
            i += 1;
            assert(self@ =~= spec_write(old(self)@, at as int, bytes@.subrange(0, i as int)));
        }
        assert(bytes@.subrange(0, bytes@.len() as int) =~= bytes@);
        Ok(())
    }
}

/// The number of bytes in `file`.
pub fn file_len(file: &Stream) -> (r: u64)
    ensures
        r == file@.len(),
        r <= usize::MAX,
{
    file.len()
}

fn seal(bf: Option<&Blowfish>, buf: &mut Vec<u8>)
    ensures
        final(buf)@ == spec_seal(cipher_view(bf), old(buf)@),
        final(buf)@.len() == old(buf)@.len(),
{
    match bf {
        Some(cipher) => cipher.encrypt(buf),
        None => {},
    }
}

fn unseal(bf: Option<&Blowfish>, buf: &mut Vec<u8>)
    ensures
        final(buf)@ == spec_unseal(cipher_view(bf), old(buf)@),
        final(buf)@.len() == old(buf)@.len(),
{
    match bf {
        Some(cipher) => cipher.decrypt(buf),
        None => {},
    }
}

/// Reads the block stored at `offset`: 2560 bytes, decrypted where there is a
/// cipher, and decoded as twenty entries.
pub fn read_block_at(bf: Option<&Blowfish>, file: &Stream, offset: u64) -> (r: Pk2Result<
    PackBlock,
>)
    ensures
        match r {
            Ok(block) => spec_read_block(cipher_view(bf), file@, offset) == Ok::<
                PackBlockView,
                Error,
            >(block@) && block.wf(),
            Err(e) => spec_read_block(cipher_view(bf), file@, offset) == Err::<
                PackBlockView,
                Error,
            >(e),
        },
{
    let mut buf = match file.read_exact_at(offset, PK2_FILE_BLOCK_SIZE) {
        Ok(buf) => buf,
        Err(e) => {
            return Err(e);
        },
    };
    unseal(bf, &mut buf);
    PackBlock::from_reader(buf.as_slice(), offset)
}

/// Writes `block` at `offset`, encrypted where there is a cipher. The stream
/// grows only where `offset` is its end; any other write that would reach
/// past the end is refused with `OutOfBounds` and changes nothing.
pub fn write_block(bf: Option<&Blowfish>, file: &mut Stream, offset: u64, block: &PackBlock) -> (r:
    Pk2Result<()>)
    requires
        block.wf(),
    ensures
        match r {
            Ok(_) => can_write_block(old(file)@, offset) && final(file)@ == spec_write_block(
                cipher_view(bf),
                old(file)@,
                offset,
                block@.entries,
            ),
            Err(e) => !can_write_block(old(file)@, offset) && e == Error::Io(IoError::OutOfBounds)
                && final(file)@ == old(file)@,
        },
{
    let len = file.len();
    if offset > len || (offset < len && len - offset < PK2_FILE_BLOCK_SIZE as u64) {
        return Err(Error::Io(IoError::OutOfBounds));
    }
    let mut buf: Vec<u8> = Vec::new();
    block.to_writer(&mut buf);
    assert(buf@ =~= spec_encode_entries(block@.entries));
    seal(bf, &mut buf);
    file.write_all_at(offset, buf.as_slice())
}

/// Writes `entry` at `offset`, encrypted by itself where there is a cipher.
/// The entry must lie within the stream: a write that would reach past the
/// end is refused with `OutOfBounds` and changes nothing.
pub fn write_entry_at(bf: Option<&Blowfish>, file: &mut Stream, offset: u64, entry: &PackEntry) -> (r:
    Pk2Result<()>)
    requires
        entry@.wf(),
    ensures
        match r {
            Ok(_) => can_write_entry(old(file)@, offset) && final(file)@ == spec_write_entry(
                cipher_view(bf),
                old(file)@,
                offset,
                entry@,
            ),
            Err(e) => !can_write_entry(old(file)@, offset) && e == Error::Io(IoError::OutOfBounds)
                && final(file)@ == old(file)@,
        },
{
    let len = file.len();
    if offset > len || len - offset < PK2_FILE_ENTRY_SIZE as u64 {
        return Err(Error::Io(IoError::OutOfBounds));
    }
    let mut buf: Vec<u8> = Vec::new();
    entry.to_writer(&mut buf);
    assert(buf@ =~= spec_encode(entry@));
    seal(bf, &mut buf);
    file.write_all_at(offset, buf.as_slice())
}

/// Writes entry `entry_index` of `chain` at the place in the stream that the
/// chain gives for it.
pub fn write_chain_entry(
    bf: Option<&Blowfish>,
    file: &mut Stream,
    chain: &PackBlockChain,
    entry_index: usize,
) -> (r: Pk2Result<()>)
    requires
        chain.wf(),
        entry_index < chain_entries(chain@).len(),
    ensures
        ({
            let offset = spec_file_offset_for_entry(chain@, entry_index as int) as u64;
            match r {
                Ok(_) => can_write_entry(old(file)@, offset) && final(file)@ == spec_write_entry(
                    cipher_view(bf),
                    old(file)@,
                    offset,
                    chain_entries(chain@)[entry_index as int],
                ),
                Err(e) => !can_write_entry(old(file)@, offset) && e == Error::Io(
                    IoError::OutOfBounds,
                ) && final(file)@ == old(file)@,
            }
        }),
{
    match (chain.file_offset_for_entry(entry_index), chain.get(entry_index)) {
        (Some(offset), Some(entry)) => write_entry_at(bf, file, offset, entry),
        _ => Ok(()),
    }
}

/// Whether a block can be appended to `image`: its end must be a place that
/// the machine can count to.
pub open spec fn can_append_block(image: Seq<u8>) -> bool {
    image.len() + PK2_FILE_BLOCK_SIZE <= usize::MAX
}

/// Appends a block of twenty unused entries to the stream and gives the
/// offset at which it lies, and the block.
pub fn allocate_empty_block(bf: Option<&Blowfish>, file: &mut Stream) -> (r: Pk2Result<
    (u64, PackBlock),
>)
    ensures
        match r {
            Ok((offset, block)) => can_append_block(old(file)@) && offset == old(file)@.len()
                && block@ == (PackBlockView { offset, entries: empty_entries() }) && block.wf()
                && final(file)@ == spec_write_block(
                cipher_view(bf),
                old(file)@,
                offset,
                empty_entries(),
            ),
            Err(e) => !can_append_block(old(file)@) && e == Error::Io(IoError::OutOfBounds)
                && final(file)@ == old(file)@,
        },
{
    let offset = file_len(file);
    if offset > (usize::MAX - PK2_FILE_BLOCK_SIZE) as u64 {
        return Err(Error::Io(IoError::OutOfBounds));
    }
    let block = PackBlock::new(offset);
    match write_block(bf, file, offset, &block) {
        Ok(_) => Ok((offset, block)),
        Err(e) => Err(e),
    }
}

/// The image after the first block of a new directory, whose parent is the
/// chain at `parent`, is appended to `image`.
pub open spec fn spec_append_chain(bf: Option<BlowfishView>, image: Seq<u8>, parent: u64) -> Seq<
    u8,
> {
    spec_write_block(
        bf,
        image,
        image.len() as u64,
        new_chain_entries(image.len() as u64, parent),
    )
}

/// Writing a block over a block that was appended leaves the image as if the
/// second block had been appended.
proof fn lemma_rewrite_appended(image: Seq<u8>, first: Seq<u8>, second: Seq<u8>)
    requires
        first.len() == second.len(),
    ensures
        spec_write(spec_write(image, image.len() as int, first), image.len() as int, second)
            == spec_write(image, image.len() as int, second),
{
    let at = image.len() as int;
    let once = spec_write(image, at, first);
    assert(once.subrange(0, at) =~= image);
    assert(image.subrange(0, at) =~= image);
    assert(spec_write(once, at, second) =~= spec_write(image, at, second));
}

/// Creates the chain of a new directory named `dir_name` under the directory
/// of `parent_chain`, in the slot `entry_idx_in_parent` of that chain.
///
/// A block is appended to the stream and filled with `.`, which names the
/// new chain, and `..`, which names the parent; it is stored before anything
/// points at it. Then the slot of the parent becomes a directory entry that
/// names the new chain, in memory and in the stream. The new chain is handed
/// back.
///
/// Where the stream refuses the new block, nothing changes. Where it refuses
/// the entry of the parent, the new block is stored and the parent names it
/// in memory only.
pub fn allocate_new_block_chain(
    bf: Option<&Blowfish>,
    file: &mut Stream,
    parent_chain: &mut PackBlockChain,
    dir_name: &[u8],
    entry_idx_in_parent: usize,
) -> (r: Pk2Result<PackBlockChain>)
    requires
        old(parent_chain).wf(),
        valid_name(dir_name@),
        entry_idx_in_parent < chain_entries(old(parent_chain)@).len(),
    ensures
        ({
            let parent = old(parent_chain)@;
            let offset = old(file)@.len() as u64;
            let link = PackEntryView::directory(
                dir_name@,
                offset,
                chain_entries(parent)[entry_idx_in_parent as int].next_block(),
            );
            let stored = spec_append_chain(cipher_view(bf), old(file)@, parent[0].offset);
            let at = spec_file_offset_for_entry(parent, entry_idx_in_parent as int) as u64;
            match r {
                Ok(chain) => {
                    &&& can_append_block(old(file)@)
                    &&& can_write_entry(stored, at)
                    &&& chain@ == seq![
                        PackBlockView {
                            offset,
                            entries: new_chain_entries(offset, parent[0].offset),
                        },
                    ]
                    &&& chain.wf()
                    &&& final(parent_chain)@ == chain_with_entry(
                        parent,
                        entry_idx_in_parent as int,
                        link,
                    )
                    &&& final(parent_chain).wf()
                    &&& final(file)@ == spec_write_entry(cipher_view(bf), stored, at, link)
                },
                Err(e) => {
                    &&& e == Error::Io(IoError::OutOfBounds)
                    &&& if !can_append_block(old(file)@) {
                        final(parent_chain)@ == parent && final(file)@ == old(file)@
                    } else {
                        &&& !can_write_entry(stored, at)
                        &&& final(parent_chain)@ == chain_with_entry(
                            parent,
                            entry_idx_in_parent as int,
                            link,
                        )
                        &&& final(parent_chain).wf()
                        &&& final(file)@ == stored
                    }
                },
            }
        }),
{
    let (offset, mut block) = match allocate_empty_block(bf, file) {
        Ok(pair) => pair,
        Err(e) => {
            return Err(e);
        },
    };
    let parent_index = parent_chain.chain_index();
    match block.get_mut(0) {
        Some(slot) => {
            *slot = PackEntry::current_dir(ChainIndex(offset));
        },
        None => {},
    }
    match block.get_mut(1) {
        Some(slot) => {
            *slot = PackEntry::parent_dir(parent_index);
        },
        None => {},
    }
    assert(block@.entries =~= new_chain_entries(offset, parent_index.0));
    assert(block.wf());
    proof {
        let v = cipher_view(bf);
        lemma_encode_entries(empty_entries());
        lemma_encode_entries(block@.entries);
        lemma_seal_len(v, spec_encode_entries(empty_entries()));
        lemma_seal_len(v, spec_encode_entries(block@.entries));
        lemma_rewrite_appended(
            old(file)@,
            spec_seal(v, spec_encode_entries(empty_entries())),
            spec_seal(v, spec_encode_entries(block@.entries)),
        );
        lemma_write_then_read(
            old(file)@,
            old(file)@.len() as int,
            spec_seal(v, spec_encode_entries(empty_entries())),
        );
    }
    match write_block(bf, file, offset, &block) {
        Ok(_) => {},
        Err(e) => {
            return Err(e);
        },
    }
    let ghost link = PackEntryView::directory(
        dir_name@,
        offset,
        chain_entries(old(parent_chain)@)[entry_idx_in_parent as int].next_block(),
    );
    proof {
        lemma_chain_with_entry(old(parent_chain)@, entry_idx_in_parent as int, link);
    }
    match parent_chain.get_mut(entry_idx_in_parent) {
        Some(slot) => {
            let next = slot.next_block();
            *slot = PackEntry::new_directory(dir_name, ChainIndex(offset), next);
        },
        None => {},
    }
    match write_chain_entry(bf, file, parent_chain, entry_idx_in_parent) {
        Ok(_) => {},
        Err(e) => {
            return Err(e);
        },
    }
    let mut blocks: Vec<PackBlock> = Vec::new();
    blocks.push(block);
    assert(crate::raw::block_chain::blocks_view(blocks@) =~= seq![block@]);
    Ok(PackBlockChain::from_blocks(blocks))
}

} // verus!
