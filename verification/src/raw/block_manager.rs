//! The cache of all chains of an archive, and the resolution of paths over
//! it.

use vstd::prelude::*;
use std::collections::HashMap;
use crate::blowfish::{Blowfish, BlowfishView};
use crate::constants::{PK2_FILE_BLOCK_SIZE, PK2_MAX_CHAIN_BLOCKS, PK2_ROOT_BLOCK};
use crate::error::{Error, Pk2Result};
use crate::io::{Stream, cipher_view, read_block_at, spec_read_block};
use crate::path::{
    components, is_parent_dir, is_text, names_view, spec_components, spec_is_text,
};
use crate::raw::ChainIndex;
use crate::raw::block_chain::{
    PackBlock, PackBlockChain, PackBlockView, blocks_view, chain_entries, chain_wf,
    first_index, named, spec_find_child,
};
use crate::raw::entry::{PackEntry, PackEntryView, parent_dir_name};

verus! {

/// The chains of an archive, each under the offset of its first block.
pub type ChainsView = Map<u64, Seq<PackBlockView>>;

/// Whether every chain is well formed.
pub open spec fn chains_wf(m: ChainsView) -> bool {
    forall|k: u64| m.contains_key(k) ==> chain_wf(#[trigger] m[k])
}

/// A list of blocks put before the outcome of reading the blocks that
/// follow them.
pub open spec fn prepend(front: Seq<PackBlockView>, rest: Pk2Result<Seq<PackBlockView>>) -> Pk2Result<
    Seq<PackBlockView>,
> {
    match rest {
        Ok(blocks) => Ok(front + blocks),
        Err(e) => Err(e),
    }
}

/// The number of blocks that are read for one chain of an archive of `len`
/// bytes: one more than fit into the archive one behind the other, and no
/// more than any chain may link.
pub open spec fn chain_budget(len: nat) -> nat {
    if len / (PK2_FILE_BLOCK_SIZE as nat) < PK2_MAX_CHAIN_BLOCKS {
        len / (PK2_FILE_BLOCK_SIZE as nat) + 1
    } else {
        PK2_MAX_CHAIN_BLOCKS as nat
    }
}

/// The chain that starts at `offset`: the block there, and the blocks that
/// each names as the next, up to the one that names none. `MalformedChain`
/// where more than `budget` blocks are linked.
pub open spec fn spec_read_chain(
    bf: Option<BlowfishView>,
    image: Seq<u8>,
    offset: u64,
    budget: nat,
) -> Pk2Result<Seq<PackBlockView>>
    decreases budget,
{
    if budget == 0 {
        Err(Error::MalformedChain)
    } else {
        match spec_read_block(bf, image, offset) {
            Err(e) => Err(e),
            Ok(block) => if block.next_block() == 0 {
                Ok(seq![block])
            } else {
                prepend(
                    seq![block],
                    spec_read_chain(bf, image, block.next_block(), (budget - 1) as nat),
                )
            },
        }
    }
}

/// The chains that the directories among `entries` lead to, `.` and `..` left
/// out, in the order of the entries.
pub open spec fn child_links(entries: Seq<PackEntryView>) -> Seq<u64>
    decreases entries.len(),
{
    if entries.len() == 0 {
        Seq::empty()
    } else {
        child_links(entries.drop_last()) + (match entries.last() {
            PackEntryView::Directory(d) if d.is_normal_link() => seq![d.pos_children],
            _ => Seq::empty(),
        })
    }
}

/// The chains of the archive in `image`, collected from the chains in
/// `chains` and the offsets in `pending`, the last of which is visited next.
/// Each visit reads one chain and adds the chains of its directories to
/// those to be visited. A chain that is reached twice makes the archive
/// `Corrupt`; at most `budget` chains are visited.
pub open spec fn spec_load(
    bf: Option<BlowfishView>,
    image: Seq<u8>,
    chains: ChainsView,
    pending: Seq<u64>,
    budget: nat,
) -> Pk2Result<ChainsView>
    decreases budget,
{
    if pending.len() == 0 {
        Ok(chains)
    } else if budget == 0 {
        Err(Error::MalformedChain)
    } else if chains.contains_key(pending.last()) {
        Err(Error::Corrupt)
    } else {
        match spec_read_chain(bf, image, pending.last(), chain_budget(image.len())) {
            Err(e) => Err(e),
            Ok(chain) => spec_load(
                bf,
                image,
                chains.insert(pending.last(), chain),
                pending.drop_last() + child_links(chain_entries(chain)),
                (budget - 1) as nat,
            ),
        }
    }
}

/// The chains of the archive in `image`: all that are reached from the root
/// directory.
pub open spec fn spec_load_archive(bf: Option<BlowfishView>, image: Seq<u8>) -> Pk2Result<
    ChainsView,
> {
    spec_load(bf, image, Map::empty(), seq![PK2_ROOT_BLOCK], image.len())
}

/// What a lookup that found nothing fails with: `InvalidPath` where the
/// name is `..`, which then leads out of the archive, and `NotFound` for any
/// other name.
pub open spec fn spec_missing(name: Seq<u8>) -> Error {
    if name == parent_dir_name() {
        Error::InvalidPath
    } else {
        Error::NotFound
    }
}

/// The chain that `names` lead to from the chain `start`, each name looked
/// up in the chain that the names before it led to. A name that is not text
/// is `NonUnicodePath`.
pub open spec fn spec_resolve_chain(m: ChainsView, start: u64, names: Seq<Seq<u8>>) -> Pk2Result<
    u64,
>
    decreases names.len(),
{
    if names.len() == 0 {
        Ok(start)
    } else if !spec_is_text(names[0]) {
        Err(Error::NonUnicodePath)
    } else if !m.contains_key(start) {
        Err(Error::InvalidChainIndex)
    } else {
        match spec_find_child(chain_entries(m[start]), names[0]) {
            Ok(next) => spec_resolve_chain(m, next, names.skip(1)),
            Err(Error::NotFound) => Err(spec_missing(names[0])),
            Err(e) => Err(e),
        }
    }
}

/// The chain and the position in it of the entry that `names` lead to from
/// the chain `start`: the last name is looked up in the chain that the names
/// before it lead to. `InvalidPath` where there is no name, or where a `..`
/// leads out of the archive.
pub open spec fn spec_resolve_entry(m: ChainsView, start: u64, names: Seq<Seq<u8>>) -> Pk2Result<
    (u64, int),
> {
    if names.len() == 0 {
        Err(Error::InvalidPath)
    } else {
        match spec_resolve_chain(m, start, names.drop_last()) {
            Err(e) => Err(e),
            Ok(parent) => if !spec_is_text(names.last()) {
                Err(Error::NonUnicodePath)
            } else if !m.contains_key(parent) {
                Err(Error::InvalidChainIndex)
            } else {
                match first_index(chain_entries(m[parent]), named(names.last())) {
                    None => Err(spec_missing(names.last())),
                    Some(i) => Ok((parent, i)),
                }
            },
        }
    }
}

/// How far `names` lead from the chain `start` through directories that
/// exist: the chain reached, and the names from the first that is absent
/// on. An absent `..` is `InvalidPath`: it would lead out of the archive.
pub open spec fn spec_validate_dir_path(m: ChainsView, start: u64, names: Seq<Seq<u8>>) -> Pk2Result<
    (u64, Seq<Seq<u8>>),
>
    decreases names.len(),
{
    if names.len() == 0 {
        Ok((start, names))
    } else if !spec_is_text(names[0]) {
        Err(Error::NonUnicodePath)
    } else if !m.contains_key(start) {
        Err(Error::InvalidChainIndex)
    } else {
        match spec_find_child(chain_entries(m[start]), names[0]) {
            Ok(next) => spec_validate_dir_path(m, next, names.skip(1)),
            Err(Error::NotFound) => if names[0] == parent_dir_name() {
                Err(Error::InvalidPath)
            } else {
                Ok((start, names))
            },
            Err(e) => Err(e),
        }
    }
}

/// The links of a list of entries and one more entry.
proof fn lemma_child_links_push(entries: Seq<PackEntryView>, n: int)
    requires
        0 <= n < entries.len(),
    ensures
        child_links(entries.subrange(0, n + 1)) == child_links(entries.subrange(0, n)) + (
        match entries[n] {
            PackEntryView::Directory(d) if d.is_normal_link() => seq![d.pos_children],
            _ => Seq::<u64>::empty(),
        }),
{
    let upto = entries.subrange(0, n + 1);
    assert(upto.drop_last() =~= entries.subrange(0, n));
    assert(upto.last() == entries[n]);
}

/// What a lookup of `name` that found nothing fails with.
fn missing(name: &[u8]) -> (r: Error)
    ensures
        r == spec_missing(name@),
{
    if is_parent_dir(name) {
        Error::InvalidPath
    } else {
        Error::NotFound
    }
}

/// Simple cache of the chains of an archive, by the offsets of their first
/// blocks.
pub struct BlockManager {
    index: HashMap<u64, usize>,
    chains: Vec<PackBlockChain>,
}

impl View for BlockManager {
    type V = ChainsView;

    closed spec fn view(&self) -> ChainsView {
        Map::new(
            |k: u64| self.index@.contains_key(k),
            |k: u64| self.chains[self.index@[k] as int]@,
        )
    }
}

impl BlockManager {
    /// Whether the cache is sound: every offset leads to a chain of its own,
    /// and every chain is well formed.
    pub closed spec fn wf(&self) -> bool {
        &&& forall|k: u64|
            self.index@.contains_key(k) ==> (#[trigger] self.index@[k]) < self.chains.len()
                && self.chains[self.index@[k] as int].wf()
        &&& forall|k1: u64, k2: u64|
            self.index@.contains_key(k1) && self.index@.contains_key(k2) && k1 != k2
                ==> #[trigger] self.index@[k1] != #[trigger] self.index@[k2]
        &&& self.index@.dom().finite()
        &&& self.index@.dom().len() == self.chains.len()
    }

    /// The number of chains in the cache.
    pub fn len(&self) -> (r: usize)
        requires
            self.wf(),
        ensures
            r == self@.dom().len(),
            self@.dom().finite(),
    {
        assert(self@.dom() =~= self.index@.dom());
        self.chains.len()
    }

    /// In a sound cache every chain is well formed.
    pub proof fn lemma_chains_wf(&self)
        requires
            self.wf(),
        ensures
            chains_wf(self@),
    {
        assert forall|k: u64| self@.contains_key(k) implies chain_wf(#[trigger] self@[k]) by {
            assert(self.chains[self.index@[k] as int].wf());
        }
    }

    /// A cache without chains.
    pub fn empty() -> (r: Self)
        ensures
            r@ == Map::<u64, Seq<PackBlockView>>::empty(),
            r.wf(),
    {
        let r = BlockManager { index: HashMap::new(), chains: Vec::new() };
        assert(r@ =~= Map::<u64, Seq<PackBlockView>>::empty());
        r
    }

    /// Reads the chain that starts at `offset`, block after block, each time
    /// going on to the block that the last entry names, until one names
    /// none. A chain that links more blocks than the archive has room for,
    /// as one does that leads back into itself, is refused with
    /// `MalformedChain`.
    pub fn read_chain_from_file_at(bf: Option<&Blowfish>, file: &Stream, offset: ChainIndex) -> (r:
        Pk2Result<PackBlockChain>)
        ensures
            match r {
                Ok(chain) => spec_read_chain(
                    cipher_view(bf),
                    file@,
                    offset.0,
                    chain_budget(file@.len()),
                ) == Ok::<Seq<PackBlockView>, Error>(chain@) && chain.wf() && chain@[0].offset
                    == offset.0,
                Err(e) => spec_read_chain(
                    cipher_view(bf),
                    file@,
                    offset.0,
                    chain_budget(file@.len()),
                ) == Err::<Seq<PackBlockView>, Error>(e),
            },
    {
        let mut blocks: Vec<PackBlock> = Vec::new();
        let mut at: u64 = offset.0;
        let room = file.len() / (PK2_FILE_BLOCK_SIZE as u64);
        let budget: usize = if room < PK2_MAX_CHAIN_BLOCKS as u64 {
            room as usize + 1
        } else {
            PK2_MAX_CHAIN_BLOCKS
        };
        let ghost whole = spec_read_chain(cipher_view(bf), file@, offset.0, budget as nat);
        assert(blocks_view(blocks@) =~= Seq::<PackBlockView>::empty());
        assert(forall|rest: Seq<PackBlockView>|
            #[trigger] (Seq::<PackBlockView>::empty() + rest) =~= rest);
        loop
            invariant
                blocks.len() <= budget <= PK2_MAX_CHAIN_BLOCKS,
                budget == chain_budget(file@.len()),
                whole == spec_read_chain(cipher_view(bf), file@, offset.0, budget as nat),
                whole == prepend(
                    blocks_view(blocks@),
                    spec_read_chain(cipher_view(bf), file@, at, (budget - blocks.len()) as nat),
                ),
                forall|i: int| 0 <= i < blocks.len() ==> (#[trigger] blocks[i]).wf(),
                blocks.len() > 0 ==> blocks[0]@.offset == offset.0,
                blocks.len() == 0 ==> at == offset.0,
            decreases budget - blocks.len(),
        {
            if blocks.len() >= budget {
                return Err(Error::MalformedChain);
            }
            let block = match read_block_at(bf, file, at) {
                Ok(block) => block,
                Err(e) => {
                    return Err(e);
                },
            };
            let next = match block.get(19) {
                Some(entry) => entry.next_block(),
                None => None,
            };
            let ghost before = blocks_view(blocks@);
            blocks.push(block);
            proof {
                assert(blocks_view(blocks@) =~= before + seq![block@]);
                assert forall|rest: Seq<PackBlockView>|
                    before + (seq![block@] + rest) == (before + seq![block@])
                        + rest by {
                    assert(before + (seq![block@] + rest) =~= (before + seq![block@]) + rest);
                }
            }
            match next {
                Some(offset_of_next) => {
                    at = offset_of_next;
                },
                None => {
                    assert(blocks_view(blocks@) + Seq::<PackBlockView>::empty() =~= blocks_view(
                        blocks@,
                    ));
                    assert forall|i: int| 0 <= i < blocks.len() implies (#[trigger] blocks_view(
                        blocks@,
                    )[i]).wf() by {
                        assert(blocks[i].wf());
                    }
                    return Ok(PackBlockChain::from_blocks(blocks));
                },
            }
        }
    }

    /// Reads the whole index of the archive in `file`: the chain of the root
    /// directory, and the chain of every directory found in a chain read
    /// before.
    pub fn new(bf: Option<&Blowfish>, file: &Stream) -> (r: Pk2Result<Self>)
        ensures
            match r {
                Ok(manager) => spec_load_archive(cipher_view(bf), file@) == Ok::<
                    ChainsView,
                    Error,
                >(manager@) && manager.wf(),
                Err(e) => spec_load_archive(cipher_view(bf), file@) == Err::<ChainsView, Error>(
                    e,
                ),
            },
    {
        let mut manager = Self::empty();
        let mut offsets: Vec<u64> = Vec::new();
        offsets.push(PK2_ROOT_BLOCK);
        assert(offsets@ =~= seq![PK2_ROOT_BLOCK]);
        let mut budget: u64 = file.len();
        while offsets.len() > 0
            invariant
                manager.wf(),
                spec_load_archive(cipher_view(bf), file@) == spec_load(
                    cipher_view(bf),
                    file@,
                    manager@,
                    offsets@,
                    budget as nat,
                ),
            decreases budget,
        {
            if budget == 0 {
                return Err(Error::MalformedChain);
            }
            let ghost pending = offsets@;
            let offset = match offsets.pop() {
                Some(offset) => offset,
                None => {
                    return Err(Error::MalformedChain);
                },
            };
            assert(offsets@ =~= pending.drop_last());
            if manager.get(ChainIndex(offset)).is_some() {
                return Err(Error::Corrupt);
            }
            let chain = match Self::read_chain_from_file_at(bf, file, ChainIndex(offset)) {
                Ok(chain) => chain,
                Err(e) => {
                    return Err(e);
                },
            };
            let total = chain.num_entries();
            let mut i: usize = 0;
            assert(chain_entries(chain@).subrange(0, 0) =~= Seq::<PackEntryView>::empty());
            assert(offsets@ + Seq::<u64>::empty() =~= offsets@);
            while i < total
                invariant
                    i <= total,
                    chain.wf(),
                    total == chain_entries(chain@).len(),
                    offsets@ == pending.drop_last() + child_links(
                        chain_entries(chain@).subrange(0, i as int),
                    ),
                decreases total - i,
            {
                proof {
                    lemma_child_links_push(chain_entries(chain@), i as int);
                }
                let ghost before = offsets@;
                match chain.get(i) {
                    Some(PackEntry::Directory(d)) => {
                        if d.is_normal_link() {
                            offsets.push(d.children_position().0);
                            assert(offsets@ =~= pending.drop_last() + child_links(
                                chain_entries(chain@).subrange(0, i + 1),
                            ));
                        } else {
                            assert(before + Seq::<u64>::empty() =~= before);
                        }
                    },
                    _ => {
                        assert(before + Seq::<u64>::empty() =~= before);
                    },
                }
                i += 1;
            }
            assert(chain_entries(chain@).subrange(0, total as int) =~= chain_entries(chain@));
            manager.insert(ChainIndex(offset), chain);
            budget -= 1;
        }
        Ok(manager)
    }

    /// The chain under `chain`, if the cache holds one.
    pub fn get(&self, chain: ChainIndex) -> (r: Option<&PackBlockChain>)
        requires
            self.wf(),
        ensures
            r is Some <==> self@.contains_key(chain.0),
            r is Some ==> r->Some_0@ == self@[chain.0] && r->Some_0.wf(),
    {
        match self.index.get(&chain.0) {
            Some(i) => Some(&self.chains[*i]),
            None => None,
        }
    }

    /// The chain under `chain`, to be changed in place, if the cache holds
    /// one. The cache stays sound as long as the chain stays well formed.
    pub fn get_mut(&mut self, chain: ChainIndex) -> (r: Option<&mut PackBlockChain>)
        requires
            old(self).wf(),
        ensures
            r is Some <==> old(self)@.contains_key(chain.0),
            r is None ==> *final(self) == *old(self),
            r is Some ==> (*r->Some_0)@ == old(self)@[chain.0] && r->Some_0.wf(),
            r is Some ==> final(self)@ == old(self)@.insert(chain.0, (*final(r->Some_0))@),
            r is Some && final(r->Some_0).wf() ==> final(self).wf(),
    {
        match self.index.get(&chain.0) {
            Some(i) => {
                let i: usize = *i;
                Some(&mut self.chains[i])
            },
            None => None,
        }
    }

    /// Puts `block` into the cache under `chain`, in place of the chain that
    /// was there, if any.
    pub fn insert(&mut self, chain: ChainIndex, block: PackBlockChain)
        requires
            old(self).wf(),
            block.wf(),
        ensures
            final(self)@ == old(self)@.insert(chain.0, block@),
            final(self).wf(),
    {
        let known = match self.index.get(&chain.0) {
            Some(i) => Some(*i),
            None => None,
        };
        match known {
            Some(i) => {
                self.chains[i] = block;
                assert(self@ =~= old(self)@.insert(chain.0, block@));
            },
            None => {
                let i = self.chains.len();
                self.chains.push(block);
                self.index.insert(chain.0, i);
                assert(self@ =~= old(self)@.insert(chain.0, block@));
            },
        }
    }

    /// Follows the names `names[from..]` from the chain `start`.
    fn walk(&self, start: u64, names: &Vec<Vec<u8>>, from: usize, to: usize) -> (r: Pk2Result<u64>)
        requires
            self.wf(),
            from <= to <= names.len(),
        ensures
            r == spec_resolve_chain(self@, start, names_view(names@).subrange(from as int, to as int)),
    {
        let ghost all = names_view(names@);
        let mut at: u64 = start;
        let mut i: usize = from;
        while i < to
            invariant
                from <= i <= to <= names.len(),
                self.wf(),
                all == names_view(names@),
                spec_resolve_chain(self@, start, all.subrange(from as int, to as int))
                    == spec_resolve_chain(self@, at, all.subrange(i as int, to as int)),
            decreases to - i,
        {
            let ghost rest = all.subrange(i as int, to as int);
            assert(rest.skip(1) =~= all.subrange(i + 1, to as int));
            assert(rest[0] == names[i as int]@);
            if !is_text(names[i].as_slice()) {
                return Err(Error::NonUnicodePath);
            }
            let chain = match self.get(ChainIndex(at)) {
                Some(chain) => chain,
                None => {
                    return Err(Error::InvalidChainIndex);
                },
            };
            match chain.find_block_chain_index_of(names[i].as_slice()) {
                Ok(next) => {
                    at = next.0;
                },
                Err(Error::NotFound) => {
                    return Err(missing(names[i].as_slice()));
                },
                Err(e) => {
                    return Err(e);
                },
            }
            i += 1;
        }
        Ok(at)
    }

    /// Resolves `path` from the chain `current_chain` to an entry: the last
    /// name of the path is looked up in the chain that the names before it
    /// lead to. Gives that chain, the position of the entry in it, and the
    /// entry. `InvalidPath` where the path holds no name or leaves the
    /// archive through `..`, `NotFound` where a name is absent.
    pub fn resolve_path_to_entry_and_parent(&self, current_chain: ChainIndex, path: &[u8]) -> (r:
        Pk2Result<(ChainIndex, usize, &PackEntry)>)
        requires
            self.wf(),
        ensures
            match r {
                Ok((parent, idx, entry)) => spec_resolve_entry(
                    self@,
                    current_chain.0,
                    spec_components(path@),
                ) == Ok::<(u64, int), Error>((parent.0, idx as int)) && self@.contains_key(
                    parent.0,
                ) && idx < chain_entries(self@[parent.0]).len() && entry@ == chain_entries(
                    self@[parent.0],
                )[idx as int],
                Err(e) => spec_resolve_entry(self@, current_chain.0, spec_components(path@))
                    == Err::<(u64, int), Error>(e),
            },
    {
        let names = components(path);
        if names.len() == 0 {
            return Err(Error::InvalidPath);
        }
        let last = names.len() - 1;
        assert(names_view(names@).drop_last() =~= names_view(names@).subrange(0, last as int));
        let parent_index = match self.walk(current_chain.0, &names, 0, last) {
            Ok(parent_index) => parent_index,
            Err(e) => {
                return Err(e);
            },
        };
        if !is_text(names[last].as_slice()) {
            return Err(Error::NonUnicodePath);
        }
        let parent = match self.get(ChainIndex(parent_index)) {
            Some(parent) => parent,
            None => {
                return Err(Error::InvalidChainIndex);
            },
        };
        match parent.position_of(names[last].as_slice()) {
            None => Err(missing(names[last].as_slice())),
            Some(idx) => match parent.get(idx) {
                Some(entry) => Ok((ChainIndex(parent_index), idx, entry)),
                None => Err(Error::NotFound),
            },
        }
    }

    /// Resolves `path` from the chain `current_chain` to the chain of the
    /// directory that it names.
    pub fn resolve_path_to_block_chain_index_at(&self, current_chain: ChainIndex, path: &[u8]) -> (r:
        Pk2Result<ChainIndex>)
        requires
            self.wf(),
        ensures
            match r {
                Ok(chain) => spec_resolve_chain(self@, current_chain.0, spec_components(path@))
                    == Ok::<u64, Error>(chain.0),
                Err(e) => spec_resolve_chain(self@, current_chain.0, spec_components(path@))
                    == Err::<u64, Error>(e),
            },
    {
        let names = components(path);
        assert(names_view(names@).subrange(0, names.len() as int) =~= names_view(names@));
        match self.walk(current_chain.0, &names, 0, names.len()) {
            Ok(chain) => Ok(ChainIndex(chain)),
            Err(e) => Err(e),
        }
    }

    /// Follows `path` from the chain `chain` until a name is absent, and
    /// gives the chain reached and the names that are left, the absent one
    /// first. A `..` that is absent is refused with `InvalidPath`.
    pub fn validate_dir_path_until(&self, chain: ChainIndex, path: &[u8]) -> (r: Pk2Result<
        (ChainIndex, Vec<Vec<u8>>),
    >)
        requires
            self.wf(),
        ensures
            match r {
                Ok((reached, rest)) => spec_validate_dir_path(
                    self@,
                    chain.0,
                    spec_components(path@),
                ) == Ok::<(u64, Seq<Seq<u8>>), Error>((reached.0, names_view(rest@))),
                Err(e) => spec_validate_dir_path(self@, chain.0, spec_components(path@)) == Err::<
                    (u64, Seq<Seq<u8>>),
                    Error,
                >(e),
            },
    {
        let mut names = components(path);
        let ghost all = names_view(names@);
        let mut at: u64 = chain.0;
        let mut i: usize = 0;
        assert(all.subrange(0, all.len() as int) =~= all);
        while i < names.len()
            invariant
                i <= names.len(),
                self.wf(),
                all == names_view(names@),
                all == spec_components(path@),
                spec_validate_dir_path(self@, chain.0, all) == spec_validate_dir_path(
                    self@,
                    at,
                    all.subrange(i as int, all.len() as int),
                ),
            decreases names.len() - i,
        {
            let ghost rest = all.subrange(i as int, all.len() as int);
            assert(rest.skip(1) =~= all.subrange(i + 1, all.len() as int));
            assert(rest[0] == names[i as int]@);
            if !is_text(names[i].as_slice()) {
                return Err(Error::NonUnicodePath);
            }
            let current = match self.get(ChainIndex(at)) {
                Some(current) => current,
                None => {
                    return Err(Error::InvalidChainIndex);
                },
            };
            match current.find_block_chain_index_of(names[i].as_slice()) {
                Ok(next) => {
                    at = next.0;
                },
                Err(Error::NotFound) => {
                    if is_parent_dir(names[i].as_slice()) {
                        return Err(Error::InvalidPath);
                    }
                    let left = names.split_off(i);
                    assert(names_view(left@) =~= rest);
                    return Ok((ChainIndex(at), left));
                },
                Err(e) => {
                    return Err(e);
                },
            }
            i += 1;
        }
        let left = names.split_off(i);
        assert(names_view(left@) =~= all.subrange(i as int, all.len() as int));
        Ok((ChainIndex(at), left))
    }
}

} // verus!
