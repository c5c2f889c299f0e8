//! Blocks of twenty entries, and the chains of blocks that hold one
//! directory each.

use vstd::prelude::*;
use crate::constants::{
    PK2_FILE_BLOCK_ENTRY_COUNT, PK2_FILE_BLOCK_SIZE, PK2_FILE_ENTRY_SIZE, PK2_MAX_CHAIN_BLOCKS,
};
use crate::blowfish::Blowfish;
use crate::error::{Error, IoError, Pk2Result};
use crate::io::{
    Stream, allocate_empty_block, can_append_block, can_write_entry, cipher_view,
    spec_write_block, spec_write_entry, write_chain_entry,
};
use crate::raw::ChainIndex;
use crate::raw::entry::{
    PackEntry, PackEntryView, spec_decode, spec_encode, lemma_decode_encode, lemma_encode_len,
};

verus! {

/// Whether `i` is the first position of `s` whose item meets `p`.
pub open spec fn is_first<T>(s: Seq<T>, p: spec_fn(T) -> bool, i: int) -> bool {
    &&& 0 <= i < s.len()
    &&& p(s[i])
    &&& forall|j: int| 0 <= j < i ==> !p(#[trigger] s[j])
}

/// The first position of `s` whose item meets `p`, if any does.
pub open spec fn first_index<T>(s: Seq<T>, p: spec_fn(T) -> bool) -> Option<int> {
    if exists|i: int| is_first(s, p, i) {
        Some(choose|i: int| is_first(s, p, i))
    } else {
        None
    }
}

/// The first position that meets `p` is the one before which none does.
pub proof fn lemma_first_index_some<T>(s: Seq<T>, p: spec_fn(T) -> bool, i: int)
    requires
        is_first(s, p, i),
    ensures
        first_index(s, p) == Some(i),
{
    let k = choose|k: int| is_first(s, p, k);
    if k < i {
        assert(!p(s[k]));
    } else if i < k {
        assert(!p(s[i]));
    }
}

/// No position meets `p` where no item does.
pub proof fn lemma_first_index_none<T>(s: Seq<T>, p: spec_fn(T) -> bool)
    requires
        forall|j: int| 0 <= j < s.len() ==> !p(#[trigger] s[j]),
    ensures
        first_index(s, p) is None,
{
    if exists|i: int| is_first(s, p, i) {
        let k = choose|k: int| is_first(s, p, k);
        assert(!p(s[k]));
    }
}

/// What `first_index` gives is a first position, and without one no item
/// meets `p`.
pub proof fn lemma_first_index<T>(s: Seq<T>, p: spec_fn(T) -> bool)
    ensures
        first_index(s, p) is Some ==> is_first(s, p, first_index(s, p)->Some_0),
        first_index(s, p) is None ==> forall|j: int| 0 <= j < s.len() ==> !p(#[trigger] s[j]),
{
    if first_index(s, p) is None {
        assert forall|j: int| 0 <= j < s.len() implies !p(#[trigger] s[j]) by {
            if p(s[j]) {
                lemma_some_first(s, p, j);
            }
        }
    }
}

proof fn lemma_some_first<T>(s: Seq<T>, p: spec_fn(T) -> bool, j: int)
    requires
        0 <= j < s.len(),
        p(s[j]),
    ensures
        exists|i: int| is_first(s, p, i),
    decreases j,
{
    if exists|k: int| 0 <= k < j && p(s[k]) {
        let k = choose|k: int| 0 <= k < j && p(s[k]);
        lemma_some_first(s, p, k);
    } else {
        assert(is_first(s, p, j));
    }
}

/// What a block holds: where it lies, and its twenty entries.
pub struct PackBlockView {
    pub offset: u64,
    pub entries: Seq<PackEntryView>,
}

impl PackBlockView {
    /// Whether the block has twenty entries that can be stored, and lies
    /// where a block can lie.
    pub open spec fn wf(self) -> bool {
        &&& self.entries.len() == PK2_FILE_BLOCK_ENTRY_COUNT
        &&& forall|i: int| 0 <= i < self.entries.len() ==> (#[trigger] self.entries[i]).wf()
        &&& self.offset + PK2_FILE_BLOCK_SIZE <= u64::MAX
    }

    /// The offset of the block that follows in the chain, which the last
    /// entry holds; zero where none follows.
    pub open spec fn next_block(self) -> u64 {
        self.entries[PK2_FILE_BLOCK_ENTRY_COUNT - 1].next_block()
    }
}

/// Twenty unused entries.
pub open spec fn empty_entries() -> Seq<PackEntryView> {
    Seq::new(PK2_FILE_BLOCK_ENTRY_COUNT as nat, |i: int| PackEntryView::Empty { next_block: 0 })
}

/// The stored form of a run of entries: their stored forms, one after the
/// other.
pub open spec fn spec_encode_entries(entries: Seq<PackEntryView>) -> Seq<u8>
    decreases entries.len(),
{
    if entries.len() == 0 {
        Seq::empty()
    } else {
        spec_encode_entries(entries.drop_last()) + spec_encode(entries.last())
    }
}

/// The 128 bytes of `bytes` that hold entry `i`.
pub open spec fn entry_bytes(bytes: Seq<u8>, i: int) -> Seq<u8> {
    bytes.subrange(i * PK2_FILE_ENTRY_SIZE, (i + 1) * PK2_FILE_ENTRY_SIZE)
}

/// The entries that the first 2560 bytes of `bytes` stand for. Too few bytes
/// are an I/O failure, an entry that does not decode makes the block corrupt.
pub open spec fn spec_decode_entries(bytes: Seq<u8>) -> Pk2Result<Seq<PackEntryView>> {
    if bytes.len() < PK2_FILE_BLOCK_SIZE {
        Err(Error::Io(IoError::UnexpectedEof))
    } else if forall|i: int|
        0 <= i < PK2_FILE_BLOCK_ENTRY_COUNT ==> spec_decode(#[trigger] entry_bytes(bytes, i))
            is Some {
        Ok(
            Seq::new(
                PK2_FILE_BLOCK_ENTRY_COUNT as nat,
                |i: int| spec_decode(entry_bytes(bytes, i))->Some_0,
            ),
        )
    } else {
        Err(Error::Corrupt)
    }
}

/// The stored form of `n` entries is `128 * n` bytes long, and holds each
/// entry at its place.
pub proof fn lemma_encode_entries(entries: Seq<PackEntryView>)
    requires
        forall|i: int| 0 <= i < entries.len() ==> (#[trigger] entries[i]).wf(),
    ensures
        spec_encode_entries(entries).len() == entries.len() * PK2_FILE_ENTRY_SIZE,
        forall|i: int|
            0 <= i < entries.len() ==> #[trigger] entry_bytes(spec_encode_entries(entries), i)
                == spec_encode(entries[i]),
    decreases entries.len(),
{
    if entries.len() > 0 {
        let front = entries.drop_last();
        lemma_encode_entries(front);
        lemma_encode_len(entries.last());
        let all = spec_encode_entries(entries);
        let head = spec_encode_entries(front);
        assert forall|i: int| 0 <= i < entries.len() implies #[trigger] entry_bytes(all, i)
            == spec_encode(entries[i]) by {
            if i < front.len() {
                assert(entry_bytes(all, i) =~= entry_bytes(head, i));
                assert(front[i] == entries[i]);
            } else {
                assert(entry_bytes(all, i) =~= spec_encode(entries.last()));
            }
        }
    }
}

/// Twenty entries that are stored and read back are the same entries.
pub proof fn lemma_decode_encode_entries(entries: Seq<PackEntryView>)
    requires
        entries.len() == PK2_FILE_BLOCK_ENTRY_COUNT,
        forall|i: int| 0 <= i < entries.len() ==> (#[trigger] entries[i]).wf(),
    ensures
        spec_encode_entries(entries).len() == PK2_FILE_BLOCK_SIZE,
        spec_decode_entries(spec_encode_entries(entries)) == Ok::<Seq<PackEntryView>, Error>(
            entries,
        ),
{
    let bytes = spec_encode_entries(entries);
    lemma_encode_entries(entries);
    assert forall|i: int| 0 <= i < PK2_FILE_BLOCK_ENTRY_COUNT implies spec_decode(
        #[trigger] entry_bytes(bytes, i),
    ) == Some(entries[i]) by {
        lemma_decode_encode(entries[i]);
    }
    assert(spec_decode_entries(bytes)->Ok_0 =~= entries);
}

/// A block: twenty entries and the offset at which they are stored.
#[derive(Debug)]
pub struct PackBlock {
    offset: u64,
    entries: Vec<PackEntry>,
}

impl View for PackBlock {
    type V = PackBlockView;

    closed spec fn view(&self) -> PackBlockView {
        PackBlockView {
            offset: self.offset,
            entries: Seq::new(self.entries.len() as nat, |i: int| self.entries[i]@),
        }
    }
}

impl Clone for PackBlock {
    fn clone(&self) -> (r: Self)
        ensures
            r@ == self@,
    {
        let mut entries: Vec<PackEntry> = Vec::new();
        let mut i: usize = 0;
        while i < self.entries.len()
            invariant
                i <= self.entries.len(),
                entries.len() == i,
                forall|j: int| 0 <= j < i ==> entries[j]@ == self.entries[j]@,
            decreases self.entries.len() - i,
        {
            entries.push(self.entries[i].clone());
            i += 1;
        }
        let r = PackBlock { offset: self.offset, entries };
        assert(r@.entries =~= self@.entries);
        r
    }
}

impl PackBlock {
    /// Whether the block has twenty entries that can be stored, and lies
    /// where a block can lie.
    pub open spec fn wf(&self) -> bool {
        self@.wf()
    }

    /// A block of twenty unused entries at `offset`.
    pub fn new(offset: u64) -> (r: Self)
        requires
            offset + PK2_FILE_BLOCK_SIZE <= u64::MAX,
        ensures
            r@ == (PackBlockView { offset, entries: empty_entries() }),
            r.wf(),
    {
        let mut entries: Vec<PackEntry> = Vec::new();
        let mut i: usize = 0;
        while i < PK2_FILE_BLOCK_ENTRY_COUNT
            invariant
                i <= PK2_FILE_BLOCK_ENTRY_COUNT,
                entries.len() == i,
                forall|j: int| 0 <= j < i ==> entries[j]@ == (PackEntryView::Empty { next_block: 0 }),
            decreases PK2_FILE_BLOCK_ENTRY_COUNT - i,
        {
            entries.push(PackEntry::new_empty());
            i += 1;
        }
        let r = PackBlock { offset, entries };
        assert(r@.entries =~= empty_entries());
        r
    }

    /// The offset at which the block is stored.
    pub fn offset(&self) -> (r: u64)
        ensures
            r == self@.offset,
    {
        self.offset
    }

    /// Reads the block stored at `offset` from the first 2560 bytes of
    /// `bytes`.
    pub fn from_reader(bytes: &[u8], offset: u64) -> (r: Pk2Result<Self>)
        requires
            offset + PK2_FILE_BLOCK_SIZE <= u64::MAX,
        ensures
            match r {
                Ok(block) => spec_decode_entries(bytes@) == Ok::<Seq<PackEntryView>, Error>(
                    block@.entries,
                ) && block@.offset == offset && block.wf(),
                Err(e) => spec_decode_entries(bytes@) == Err::<Seq<PackEntryView>, Error>(e),
            },
    {
        if bytes.len() < PK2_FILE_BLOCK_SIZE {
            return Err(Error::Io(IoError::UnexpectedEof));
        }
        let mut entries: Vec<PackEntry> = Vec::new();
        let mut i: usize = 0;
        while i < PK2_FILE_BLOCK_ENTRY_COUNT
            invariant
                i <= PK2_FILE_BLOCK_ENTRY_COUNT,
                bytes.len() >= PK2_FILE_BLOCK_SIZE,
                entries.len() == i,
                forall|j: int|
                    0 <= j < i ==> spec_decode(#[trigger] entry_bytes(bytes@, j)) == Some(
                        entries[j]@,
                    ) && entries[j]@.wf(),
            decreases PK2_FILE_BLOCK_ENTRY_COUNT - i,
        {
            let part = vstd::slice::slice_subrange(
                bytes,
                i * PK2_FILE_ENTRY_SIZE,
                (i + 1) * PK2_FILE_ENTRY_SIZE,
            );
            assert(part@.subrange(0, PK2_FILE_ENTRY_SIZE as int) =~= entry_bytes(bytes@, i as int));
            match PackEntry::from_reader(part) {
                Ok(entry) => {
                    entries.push(entry);
                },
                Err(e) => {
                    assert(spec_decode(entry_bytes(bytes@, i as int)) is None);
                    return Err(e);
                },
            }
            i += 1;
        }
        let block = PackBlock { offset, entries };
        assert(block@.entries =~= spec_decode_entries(bytes@)->Ok_0);
        Ok(block)
    }

    /// Appends the 2560 stored bytes of the block to `out`.
    pub fn to_writer(&self, out: &mut Vec<u8>)
        requires
            self.wf(),
        ensures
            final(out)@ == old(out)@ + spec_encode_entries(self@.entries),
            final(out)@.len() == old(out)@.len() + PK2_FILE_BLOCK_SIZE,
    {
        let mut i: usize = 0;
        assert(self@.entries.subrange(0, 0) =~= Seq::<PackEntryView>::empty());
        assert(out@ + spec_encode_entries(Seq::<PackEntryView>::empty()) =~= out@);
        while i < PK2_FILE_BLOCK_ENTRY_COUNT
            invariant
                i <= PK2_FILE_BLOCK_ENTRY_COUNT,
                self.wf(),
                out@ == old(out)@ + spec_encode_entries(self@.entries.subrange(0, i as int)),
            decreases PK2_FILE_BLOCK_ENTRY_COUNT - i,
        {
            assert(self.entries[i as int]@ == self@.entries[i as int]);
            self.entries[i].to_writer(out);
            proof {
                let upto = self@.entries.subrange(0, i + 1);
                assert(upto.drop_last() =~= self@.entries.subrange(0, i as int));
                assert(upto.last() == self@.entries[i as int]);
                assert(out@ =~= old(out)@ + spec_encode_entries(upto));
            }
            i += 1;
        }
        proof {
            assert(self@.entries.subrange(0, PK2_FILE_BLOCK_ENTRY_COUNT as int) =~= self@.entries);
            lemma_encode_entries(self@.entries);
        }
    }

    /// The entries of the block, in the order of their slots.
    pub fn entries(&self) -> (r: &[PackEntry])
        ensures
            r@.len() == self@.entries.len(),
            forall|i: int| 0 <= i < r@.len() ==> (#[trigger] r@[i])@ == self@.entries[i],
    {
        self.entries.as_slice()
    }

    /// The entry in slot `entry`, if the block has such a slot.
    pub fn get(&self, entry: usize) -> (r: Option<&PackEntry>)
        ensures
            r is Some <==> entry < self@.entries.len(),
            r is Some ==> r->Some_0@ == self@.entries[entry as int],
    {
        if entry < self.entries.len() {
            Some(&self.entries[entry])
        } else {
            None
        }
    }

    /// The entry in slot `entry`, to be changed in place, if the block has
    /// such a slot.
    pub fn get_mut(&mut self, entry: usize) -> (r: Option<&mut PackEntry>)
        ensures
            r is Some <==> entry < old(self)@.entries.len(),
            r is None ==> *final(self) == *old(self),
            r is Some ==> (*r->Some_0)@ == old(self)@.entries[entry as int],
            r is Some ==> final(self)@.offset == old(self)@.offset,
            r is Some ==> final(self)@.entries == old(self)@.entries.update(
                entry as int,
                (*final(r->Some_0))@,
            ),
    {
        if entry < self.entries.len() {
            Some(&mut self.entries[entry])
        } else {
            None
        }
    }
}

/// The entries of a chain in the order of its blocks, and within a block in
/// the order of its slots.
pub open spec fn chain_entries(blocks: Seq<PackBlockView>) -> Seq<PackEntryView> {
    Seq::new(
        blocks.len() * PK2_FILE_BLOCK_ENTRY_COUNT as nat,
        |i: int|
            blocks[i / PK2_FILE_BLOCK_ENTRY_COUNT as int].entries[i
                % PK2_FILE_BLOCK_ENTRY_COUNT as int],
    )
}

/// Whether `blocks` can be the blocks of one chain: at least one and no more
/// than a chain may link, each of them well formed.
pub open spec fn chain_wf(blocks: Seq<PackBlockView>) -> bool {
    &&& 1 <= blocks.len() <= PK2_MAX_CHAIN_BLOCKS
    &&& forall|i: int| 0 <= i < blocks.len() ==> (#[trigger] blocks[i]).wf()
}

/// Whether each block but the last names the next one in its last entry, and
/// the last block names none.
pub open spec fn chain_linked(blocks: Seq<PackBlockView>) -> bool {
    &&& forall|k: int|
        0 <= k < blocks.len() - 1 ==> (#[trigger] blocks[k]).next_block() == blocks[k + 1].offset
            && blocks[k + 1].offset != 0
    &&& blocks.len() > 0 ==> blocks.last().next_block() == 0
}

/// The offset in the archive at which entry `idx` of the chain is stored.
pub open spec fn spec_file_offset_for_entry(blocks: Seq<PackBlockView>, idx: int) -> int {
    blocks[idx / PK2_FILE_BLOCK_ENTRY_COUNT as int].offset + PK2_FILE_ENTRY_SIZE * (idx
        % PK2_FILE_BLOCK_ENTRY_COUNT as int)
}

/// The chain with entry `idx` replaced by `entry`.
pub open spec fn chain_with_entry(blocks: Seq<PackBlockView>, idx: int, entry: PackEntryView) -> Seq<
    PackBlockView,
> {
    let b = idx / PK2_FILE_BLOCK_ENTRY_COUNT as int;
    let s = idx % PK2_FILE_BLOCK_ENTRY_COUNT as int;
    blocks.update(
        b,
        PackBlockView { offset: blocks[b].offset, entries: blocks[b].entries.update(s, entry) },
    )
}

/// The chain with `block` appended, and named as the next block by the entry
/// that was last before.
pub open spec fn chain_pushed_and_linked(blocks: Seq<PackBlockView>, block: PackBlockView) -> Seq<
    PackBlockView,
> {
    let last = blocks.len() * PK2_FILE_BLOCK_ENTRY_COUNT - 1;
    chain_with_entry(
        blocks,
        last,
        chain_entries(blocks)[last].with_next_block(block.offset),
    ).push(block)
}

/// Whether an entry is a directory or file named `name`.
pub open spec fn named(name: Seq<u8>) -> spec_fn(PackEntryView) -> bool {
    |entry: PackEntryView| entry.name() == Some(name)
}

/// Whether an entry is unused.
pub open spec fn unused() -> spec_fn(PackEntryView) -> bool {
    |entry: PackEntryView| entry is Empty
}

/// The chain of the directory that the first entry named `name` stands for.
pub open spec fn spec_find_child(entries: Seq<PackEntryView>, name: Seq<u8>) -> Pk2Result<u64> {
    match first_index(entries, named(name)) {
        None => Err(Error::NotFound),
        Some(i) => match entries[i] {
            PackEntryView::Directory(d) => Ok(d.pos_children),
            _ => Err(Error::ExpectedDirectory),
        },
    }
}

/// Replacing an entry of a chain replaces it in the run of its entries, and
/// keeps the chain well formed where the new entry can be stored.
pub proof fn lemma_chain_with_entry(blocks: Seq<PackBlockView>, idx: int, entry: PackEntryView)
    requires
        chain_wf(blocks),
        0 <= idx < blocks.len() * PK2_FILE_BLOCK_ENTRY_COUNT,
    ensures
        chain_entries(chain_with_entry(blocks, idx, entry)) == chain_entries(blocks).update(
            idx,
            entry,
        ),
        chain_with_entry(blocks, idx, entry).len() == blocks.len(),
        forall|k: int|
            0 <= k < blocks.len() ==> (#[trigger] chain_with_entry(blocks, idx, entry)[k]).offset
                == blocks[k].offset,
        entry.wf() ==> chain_wf(chain_with_entry(blocks, idx, entry)),
{
    let after = chain_with_entry(blocks, idx, entry);
    let b = idx / 20;
    assert forall|i: int| 0 <= i < blocks.len() * 20 implies #[trigger] chain_entries(after)[i]
        == chain_entries(blocks).update(idx, entry)[i] by {
        if i / 20 == b {
            assert(i == idx <==> i % 20 == idx % 20);
        }
    }
    assert(chain_entries(after) =~= chain_entries(blocks).update(idx, entry));
    if entry.wf() {
        assert forall|k: int| 0 <= k < after.len() implies (#[trigger] after[k]).wf() by {
            assert(blocks[k].wf());
        }
    }
}

/// A chain: the blocks that hold one directory, in the order in which each
/// names the next.
#[derive(Debug)]
pub struct PackBlockChain {
    blocks: Vec<PackBlock>,
}

/// What a run of blocks holds.
pub open spec fn blocks_view(blocks: Seq<PackBlock>) -> Seq<PackBlockView> {
    Seq::new(blocks.len(), |i: int| blocks[i]@)
}

impl View for PackBlockChain {
    type V = Seq<PackBlockView>;

    closed spec fn view(&self) -> Seq<PackBlockView> {
        blocks_view(self.blocks@)
    }
}

impl Clone for PackBlockChain {
    fn clone(&self) -> (r: Self)
        ensures
            r@ == self@,
    {
        let mut blocks: Vec<PackBlock> = Vec::new();
        let mut i: usize = 0;
        while i < self.blocks.len()
            invariant
                i <= self.blocks.len(),
                blocks.len() == i,
                forall|j: int| 0 <= j < i ==> blocks[j]@ == self.blocks[j]@,
            decreases self.blocks.len() - i,
        {
            blocks.push(self.blocks[i].clone());
            i += 1;
        }
        let r = PackBlockChain { blocks };
        assert(r@ =~= self@);
        r
    }
}

impl PackBlockChain {
    /// Whether the chain has at least one block and no more than a chain may
    /// link, each of them well formed.
    pub open spec fn wf(&self) -> bool {
        chain_wf(self@)
    }

    /// The chain made of `blocks`, in their order.
    pub fn from_blocks(blocks: Vec<PackBlock>) -> (r: Self)
        requires
            chain_wf(blocks_view(blocks@)),
        ensures
            r@ == blocks_view(blocks@),
            r.wf(),
    {
        PackBlockChain { blocks }
    }

    /// Appends `block` to the chain. No entry is changed: the caller links
    /// the block.
    pub fn push(&mut self, block: PackBlock)
        requires
            old(self).wf(),
            block.wf(),
            old(self)@.len() < PK2_MAX_CHAIN_BLOCKS,
        ensures
            final(self)@ == old(self)@.push(block@),
            final(self).wf(),
    {
        self.blocks.push(block);
        assert(self@ =~= old(self)@.push(block@));
    }

    /// Appends `block` to the chain and makes the entry that was last before
    /// name it as the next block. Storing that entry and the new block is left
    /// to the caller.
    pub fn push_and_link(&mut self, block: PackBlock)
        requires
            old(self).wf(),
            block.wf(),
            old(self)@.len() < PK2_MAX_CHAIN_BLOCKS,
        ensures
            final(self)@ == chain_pushed_and_linked(old(self)@, block@),
            final(self).wf(),
    {
        let last = self.num_entries() - 1;
        let offset = block.offset();
        proof {
            lemma_chain_with_entry(
                old(self)@,
                last as int,
                chain_entries(old(self)@)[last as int].with_next_block(offset),
            );
        }
        match self.get_mut(last) {
            Some(entry) => {
                entry.set_next_block(offset);
            },
            None => {},
        }
        self.push(block);
    }

    /// Appends a block of unused entries to the stream and to the chain, and
    /// gives the position in the chain of the first entry of the new block.
    ///
    /// The block is stored first. Then the entry that was last names it as
    /// the next block, in memory and in the stream, and the block joins the
    /// chain. A chain that already has as many blocks as a chain may link is
    /// refused with `MalformedChain`, and nothing changes. Where the stream
    /// refuses the new block, nothing changes either. Where it refuses the
    /// entry, the block is stored and the entry names it in memory, but the
    /// block has not joined the chain.
    pub fn create_new_block(&mut self, bf: Option<&Blowfish>, file: &mut Stream) -> (r: Pk2Result<
        usize,
    >)
        requires
            old(self).wf(),
        ensures
            ({
                let before = old(self)@;
                let last = before.len() * PK2_FILE_BLOCK_ENTRY_COUNT - 1;
                let offset = old(file)@.len() as u64;
                let block = PackBlockView { offset, entries: empty_entries() };
                let linked = chain_with_entry(
                    before,
                    last,
                    chain_entries(before)[last].with_next_block(offset),
                );
                let stored = spec_write_block(
                    cipher_view(bf),
                    old(file)@,
                    offset,
                    empty_entries(),
                );
                let at = spec_file_offset_for_entry(before, last) as u64;
                match r {
                    Ok(first) => {
                        &&& before.len() < PK2_MAX_CHAIN_BLOCKS
                        &&& can_append_block(old(file)@)
                        &&& can_write_entry(stored, at)
                        &&& first == last + 1
                        &&& final(self)@ == chain_pushed_and_linked(before, block)
                        &&& final(self).wf()
                        &&& final(file)@ == spec_write_entry(
                            cipher_view(bf),
                            stored,
                            at,
                            chain_entries(linked)[last],
                        )
                    },
                    Err(e) => if before.len() >= PK2_MAX_CHAIN_BLOCKS {
                        &&& e == Error::MalformedChain
                        &&& final(self)@ == before
                        &&& final(file)@ == old(file)@
                    } else if !can_append_block(old(file)@) {
                        &&& e == Error::Io(IoError::OutOfBounds)
                        &&& final(self)@ == before
                        &&& final(file)@ == old(file)@
                    } else {
                        &&& e == Error::Io(IoError::OutOfBounds)
                        &&& !can_write_entry(stored, at)
                        &&& final(self)@ == linked
                        &&& final(self).wf()
                        &&& final(file)@ == stored
                    },
                }
            }),
    {
        if self.blocks.len() >= PK2_MAX_CHAIN_BLOCKS {
            return Err(Error::MalformedChain);
        }
        let (offset, block) = match allocate_empty_block(bf, file) {
            Ok(pair) => pair,
            Err(e) => {
                return Err(e);
            },
        };
        let last = self.num_entries() - 1;
        proof {
            lemma_chain_with_entry(
                old(self)@,
                last as int,
                chain_entries(old(self)@)[last as int].with_next_block(offset),
            );
        }
        match self.get_mut(last) {
            Some(entry) => {
                entry.set_next_block(offset);
            },
            None => {},
        }
        match write_chain_entry(bf, file, self, last) {
            Ok(_) => {},
            Err(e) => {
                return Err(e);
            },
        }
        self.push(block);
        Ok(last + 1)
    }

    /// The identity of the chain: the offset of its first block.
    pub fn chain_index(&self) -> (r: ChainIndex)
        requires
            self.wf(),
        ensures
            r.0 == self@[0].offset,
    {
        assert(self.blocks[0]@ == self@[0]);
        ChainIndex(self.blocks[0].offset())
    }

    /// The offset in the archive at which entry `idx` of the chain is stored,
    /// if the chain has such an entry.
    pub fn file_offset_for_entry(&self, idx: usize) -> (r: Option<u64>)
        requires
            self.wf(),
        ensures
            r is Some <==> idx < self@.len() * PK2_FILE_BLOCK_ENTRY_COUNT,
            r is Some ==> r->Some_0 == spec_file_offset_for_entry(self@, idx as int),
            r is Some ==> r->Some_0 + PK2_FILE_ENTRY_SIZE <= u64::MAX,
    {
        let b = idx / PK2_FILE_BLOCK_ENTRY_COUNT;
        if b < self.blocks.len() {
            assert(self.blocks[b as int]@ == self@[b as int]);
            assert(self@[b as int].wf());
            Some(
                self.blocks[b].offset() + (PK2_FILE_ENTRY_SIZE * (idx
                    % PK2_FILE_BLOCK_ENTRY_COUNT)) as u64,
            )
        } else {
            None
        }
    }

    /// The number of entries in the chain: twenty for each block.
    pub fn num_entries(&self) -> (r: usize)
        requires
            self.wf(),
        ensures
            r == self@.len() * PK2_FILE_BLOCK_ENTRY_COUNT,
            r == chain_entries(self@).len(),
            r >= PK2_FILE_BLOCK_ENTRY_COUNT,
    {
        self.blocks.len() * PK2_FILE_BLOCK_ENTRY_COUNT
    }

    /// The number of blocks in the chain.
    pub fn num_blocks(&self) -> (r: usize)
        ensures
            r == self@.len(),
    {
        self.blocks.len()
    }

    /// The entries of the chain, block after block and slot after slot.
    pub fn entries(&self) -> (r: Vec<&PackEntry>)
        requires
            self.wf(),
        ensures
            r@.len() == chain_entries(self@).len(),
            forall|i: int| 0 <= i < r@.len() ==> (#[trigger] r@[i])@ == chain_entries(self@)[i],
    {
        let mut all: Vec<&PackEntry> = Vec::new();
        let total = self.num_entries();
        let mut i: usize = 0;
        while i < total
            invariant
                i <= total,
                self.wf(),
                total == chain_entries(self@).len(),
                all@.len() == i,
                forall|j: int| 0 <= j < i ==> (#[trigger] all@[j])@ == chain_entries(self@)[j],
            decreases total - i,
        {
            match self.get(i) {
                Some(entry) => {
                    all.push(entry);
                },
                None => {},
            }
            i += 1;
        }
        all
    }

    /// Entry `entry` of the chain, if the chain has such an entry.
    pub fn get(&self, entry: usize) -> (r: Option<&PackEntry>)
        requires
            self.wf(),
        ensures
            r is Some <==> entry < chain_entries(self@).len(),
            r is Some ==> r->Some_0@ == chain_entries(self@)[entry as int],
            r is Some ==> r->Some_0@.wf(),
    {
        let b = entry / PK2_FILE_BLOCK_ENTRY_COUNT;
        if b < self.blocks.len() {
            assert(self.blocks[b as int]@ == self@[b as int]);
            assert(self@[b as int].wf());
            self.blocks[b].get(entry % PK2_FILE_BLOCK_ENTRY_COUNT)
        } else {
            None
        }
    }

    /// Entry `entry` of the chain, to be changed in place, if the chain has
    /// such an entry.
    pub fn get_mut(&mut self, entry: usize) -> (r: Option<&mut PackEntry>)
        requires
            old(self).wf(),
        ensures
            r is Some <==> entry < chain_entries(old(self)@).len(),
            r is None ==> *final(self) == *old(self),
            r is Some ==> (*r->Some_0)@ == chain_entries(old(self)@)[entry as int],
            r is Some ==> final(self)@ == chain_with_entry(
                old(self)@,
                entry as int,
                (*final(r->Some_0))@,
            ),
    {
        let b = entry / PK2_FILE_BLOCK_ENTRY_COUNT;
        if b < self.blocks.len() {
            assert(self.blocks[b as int]@ == self@[b as int]);
            assert(self@[b as int].wf());
            self.blocks[b].get_mut(entry % PK2_FILE_BLOCK_ENTRY_COUNT)
        } else {
            None
        }
    }

    /// The position of the first entry named `name`.
    pub fn position_of(&self, name: &[u8]) -> (r: Option<usize>)
        requires
            self.wf(),
        ensures
            r is Some <==> first_index(chain_entries(self@), named(name@)) is Some,
            r is Some ==> r->Some_0 == first_index(chain_entries(self@), named(name@))->Some_0,
            r is Some ==> r->Some_0 < chain_entries(self@).len(),
    {
        let total = self.num_entries();
        let mut i: usize = 0;
        while i < total
            invariant
                i <= total,
                self.wf(),
                total == chain_entries(self@).len(),
                forall|j: int| 0 <= j < i ==> !named(name@)(#[trigger] chain_entries(self@)[j]),
            decreases total - i,
        {
            let found = match self.get(i) {
                Some(entry) => entry.has_name(name),
                None => false,
            };
            if found {
                proof {
                    lemma_first_index_some(chain_entries(self@), named(name@), i as int);
                }
                return Some(i);
            }
            i += 1;
        }
        proof {
            lemma_first_index_none(chain_entries(self@), named(name@));
        }
        None
    }

    /// The position of the first unused entry.
    pub fn first_unused(&self) -> (r: Option<usize>)
        requires
            self.wf(),
        ensures
            r is Some <==> first_index(chain_entries(self@), unused()) is Some,
            r is Some ==> r->Some_0 == first_index(chain_entries(self@), unused())->Some_0,
            r is Some ==> r->Some_0 < chain_entries(self@).len(),
    {
        let total = self.num_entries();
        let mut i: usize = 0;
        while i < total
            invariant
                i <= total,
                self.wf(),
                total == chain_entries(self@).len(),
                forall|j: int| 0 <= j < i ==> !unused()(#[trigger] chain_entries(self@)[j]),
            decreases total - i,
        {
            let found = match self.get(i) {
                Some(entry) => entry.is_empty(),
                None => false,
            };
            if found {
                proof {
                    lemma_first_index_some(chain_entries(self@), unused(), i as int);
                }
                return Some(i);
            }
            i += 1;
        }
        proof {
            lemma_first_index_none(chain_entries(self@), unused());
        }
        None
    }

    /// Looks the name `directory` up among the entries of the chain and gives
    /// the chain of the directory found: `NotFound` where no entry has the
    /// name, `ExpectedDirectory` where the first that has it is a file.
    pub fn find_block_chain_index_of(&self, directory: &[u8]) -> (r: Pk2Result<ChainIndex>)
        requires
            self.wf(),
        ensures
            match r {
                Ok(child) => spec_find_child(chain_entries(self@), directory@) == Ok::<u64, Error>(
                    child.0,
                ),
                Err(e) => spec_find_child(chain_entries(self@), directory@) == Err::<u64, Error>(
                    e,
                ),
            },
    {
        match self.position_of(directory) {
            None => Err(Error::NotFound),
            Some(i) => match self.get(i) {
                Some(PackEntry::Directory(d)) => Ok(d.children_position()),
                _ => Err(Error::ExpectedDirectory),
            },
        }
    }
}

} // verus!
