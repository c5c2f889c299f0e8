//! Handles on the files and directories of an open archive.

use vstd::prelude::*;
use crate::archive::{Pk2, is_file_at, spec_entry};
use crate::constants::{PK2_ROOT_BLOCK, PK2_ROOT_BLOCK_VIRTUAL};
use crate::error::{Error, Pk2Result};
use crate::filetime::{FILETIME, UnixTime};
use crate::raw::ChainIndex;
use crate::raw::block_chain::chain_entries;
use crate::raw::entry::{DirectoryEntry, FileEntry, PackEntry, PackEntryView};

verus! {

/// The wall-clock time of a stored timestamp, or `TimestampOutOfRange` where
/// it lies before the Unix epoch.
pub fn wall_clock(time: FILETIME) -> (r: Pk2Result<UnixTime>)
    ensures
        match r {
            Ok(at) => time.spec_into_systime() == Some(at),
            Err(e) => time.spec_into_systime() is None && e == Error::TimestampOutOfRange,
        },
{
    match time.into_systime() {
        Some(at) => Ok(at),
        None => Err(Error::TimestampOutOfRange),
    }
}

/// A file of an archive, for reading what its entry holds.
pub struct File<'a> {
    archive: &'a Pk2,
    chain: ChainIndex,
    entry_index: usize,
}

impl<'a> File<'a> {
    /// The archive of the file.
    pub closed spec fn spec_archive(&self) -> &'a Pk2 {
        self.archive
    }

    /// The chain that holds the entry of the file.
    pub closed spec fn spec_chain(&self) -> ChainIndex {
        self.chain
    }

    /// The position of the entry of the file in its chain.
    pub closed spec fn spec_entry_index(&self) -> usize {
        self.entry_index
    }

    /// Whether the handle stands for a file entry of a sound archive.
    pub open spec fn wf(&self) -> bool {
        &&& self.spec_archive().wf()
        &&& is_file_at(
            self.spec_archive()@.chains,
            self.spec_chain().0,
            self.spec_entry_index() as int,
        )
    }

    /// What the entry of the file holds.
    pub open spec fn spec_file_entry(&self) -> crate::raw::entry::FileEntryView {
        spec_entry(
            self.spec_archive()@.chains,
            self.spec_chain().0,
            self.spec_entry_index() as int,
        )->Some_0->File_0
    }

    /// The handle on the file at position `entry_index` of the chain
    /// `chain`.
    pub fn new(archive: &'a Pk2, chain: ChainIndex, entry_index: usize) -> (r: Self)
        requires
            archive.wf(),
            is_file_at(archive@.chains, chain.0, entry_index as int),
        ensures
            r.spec_archive() == archive,
            r.spec_chain() == chain,
            r.spec_entry_index() == entry_index,
            r.wf(),
    {
        File { archive, chain, entry_index }
    }

    /// The chain that holds the entry of the file.
    pub fn chain(&self) -> (r: ChainIndex)
        ensures
            r == self.spec_chain(),
    {
        self.chain
    }

    /// The position of the entry of the file in its chain.
    pub fn entry_index(&self) -> (r: usize)
        ensures
            r == self.spec_entry_index(),
    {
        self.entry_index
    }

    fn entry(&self) -> (r: Option<&'a FileEntry>)
        requires
            self.wf(),
        ensures
            r is Some,
            r->Some_0@ == self.spec_file_entry(),
    {
        match self.archive.get_entry(self.chain, self.entry_index) {
            Some(entry) => entry.as_file(),
            None => None,
        }
    }

    /// The bytes of the name of the file.
    pub fn name(&self) -> (r: &'a [u8])
        requires
            self.wf(),
        ensures
            r@ == self.spec_file_entry().name,
    {
        match self.entry() {
            Some(entry) => entry.name(),
            None => &[],
        }
    }

    /// The length of the payload in bytes.
    pub fn size(&self) -> (r: u32)
        requires
            self.wf(),
        ensures
            r == self.spec_file_entry().size,
    {
        match self.entry() {
            Some(entry) => entry.size(),
            None => 0,
        }
    }

    /// The offset of the payload in the stream.
    pub fn position(&self) -> (r: u64)
        requires
            self.wf(),
        ensures
            r == self.spec_file_entry().position,
    {
        match self.entry() {
            Some(entry) => entry.position(),
            None => 0,
        }
    }

    /// When the file was last read, where that is a time at or after the
    /// Unix epoch; `TimestampOutOfRange` otherwise.
    pub fn access_time(&self) -> (r: Pk2Result<UnixTime>)
        requires
            self.wf(),
        ensures
            match r {
                Ok(at) => self.spec_file_entry().access_time.spec_into_systime() == Some(at),
                Err(e) => self.spec_file_entry().access_time.spec_into_systime() is None && e
                    == Error::TimestampOutOfRange,
            },
    {
        match self.entry() {
            Some(entry) => wall_clock(entry.access_time()),
            None => Err(Error::TimestampOutOfRange),
        }
    }

    /// When the file was created, where that is a time at or after the Unix
    /// epoch; `TimestampOutOfRange` otherwise.
    pub fn create_time(&self) -> (r: Pk2Result<UnixTime>)
        requires
            self.wf(),
        ensures
            match r {
                Ok(at) => self.spec_file_entry().create_time.spec_into_systime() == Some(at),
                Err(e) => self.spec_file_entry().create_time.spec_into_systime() is None && e
                    == Error::TimestampOutOfRange,
            },
    {
        match self.entry() {
            Some(entry) => wall_clock(entry.create_time()),
            None => Err(Error::TimestampOutOfRange),
        }
    }

    /// When the file was last changed, where that is a time at or after the
    /// Unix epoch; `TimestampOutOfRange` otherwise.
    pub fn modify_time(&self) -> (r: Pk2Result<UnixTime>)
        requires
            self.wf(),
        ensures
            match r {
                Ok(at) => self.spec_file_entry().modify_time.spec_into_systime() == Some(at),
                Err(e) => self.spec_file_entry().modify_time.spec_into_systime() is None && e
                    == Error::TimestampOutOfRange,
            },
    {
        match self.entry() {
            Some(entry) => wall_clock(entry.modify_time()),
            None => Err(Error::TimestampOutOfRange),
        }
    }
}

/// A file of an archive that is held for changes: while the handle lives,
/// nothing else touches the archive.
pub struct FileMut<'a> {
    /// The archive of the file.
    pub archive: &'a mut Pk2,
    /// The chain that holds the entry of the file.
    pub chain: ChainIndex,
    /// The position of the entry of the file in its chain.
    pub entry_index: usize,
}

impl<'a> FileMut<'a> {
    /// Whether the handle stands for a file entry of a sound archive.
    pub open spec fn wf(&self) -> bool {
        &&& self.archive.wf()
        &&& is_file_at(self.archive@.chains, self.chain.0, self.entry_index as int)
    }

    /// What the entry of the file holds.
    pub open spec fn spec_file_entry(&self) -> crate::raw::entry::FileEntryView {
        spec_entry(self.archive@.chains, self.chain.0, self.entry_index as int)->Some_0->File_0
    }

    /// The handle on the file at position `entry_index` of the chain
    /// `chain`. The archive is given back, as the handle leaves it, when
    /// the handle goes.
    pub fn new(archive: &'a mut Pk2, chain: ChainIndex, entry_index: usize) -> (r: Self)
        requires
            old(archive).wf(),
            is_file_at(old(archive)@.chains, chain.0, entry_index as int),
        ensures
            *r.archive == *old(archive),
            *final(r.archive) == *final(archive),
            r.chain == chain,
            r.entry_index == entry_index,
            r.wf(),
    {
        FileMut { archive, chain, entry_index }
    }

    /// The chain that holds the entry of the file.
    pub fn chain(&self) -> (r: ChainIndex)
        ensures
            r == self.chain,
    {
        self.chain
    }

    /// The position of the entry of the file in its chain.
    pub fn entry_index(&self) -> (r: usize)
        ensures
            r == self.entry_index,
    {
        self.entry_index
    }

    fn entry(&self) -> (r: Option<&FileEntry>)
        requires
            self.wf(),
        ensures
            r is Some,
            r->Some_0@ == self.spec_file_entry(),
    {
        match self.archive.get_entry(self.chain, self.entry_index) {
            Some(entry) => entry.as_file(),
            None => None,
        }
    }

    /// The bytes of the name of the file.
    pub fn name(&self) -> (r: &[u8])
        requires
            self.wf(),
        ensures
            r@ == self.spec_file_entry().name,
    {
        match self.entry() {
            Some(entry) => entry.name(),
            None => &[],
        }
    }

    /// The length of the payload in bytes.
    pub fn size(&self) -> (r: u32)
        requires
            self.wf(),
        ensures
            r == self.spec_file_entry().size,
    {
        match self.entry() {
            Some(entry) => entry.size(),
            None => 0,
        }
    }

    /// The offset of the payload in the stream.
    pub fn position(&self) -> (r: u64)
        requires
            self.wf(),
        ensures
            r == self.spec_file_entry().position,
    {
        match self.entry() {
            Some(entry) => entry.position(),
            None => 0,
        }
    }
}

/// A directory of an archive.
pub struct Directory<'a> {
    archive: &'a Pk2,
    chain: ChainIndex,
    entry_index: usize,
}

/// What a directory holds: a directory or a file.
pub enum DirEntry<'a> {
    Directory(Directory<'a>),
    File(File<'a>),
}

/// Whether position `idx` of the chain `chain` stands for a directory: the
/// reserved chain 0 stands for the root directory, any other chain must hold
/// a directory entry there.
pub open spec fn spec_is_directory(archive: &Pk2, chain: u64, idx: int) -> bool {
    if chain == PK2_ROOT_BLOCK_VIRTUAL {
        idx == 0
    } else {
        spec_entry(archive@.chains, chain, idx) matches Some(entry) && entry is Directory
    }
}

/// The chain that holds what is in the directory at position `idx` of the
/// chain `chain`.
pub open spec fn spec_children_of(archive: &Pk2, chain: u64, idx: int) -> u64 {
    if chain == PK2_ROOT_BLOCK_VIRTUAL {
        PK2_ROOT_BLOCK
    } else {
        spec_entry(archive@.chains, chain, idx)->Some_0->Directory_0.pos_children
    }
}

/// Whether an entry shows in the listing of its directory: files, and
/// directories other than `.` and `..`.
pub open spec fn spec_listed(entry: PackEntryView) -> bool {
    entry is File || entry.is_normal_link()
}

impl<'a> Directory<'a> {
    /// The archive of the directory.
    pub closed spec fn spec_archive(&self) -> &'a Pk2 {
        self.archive
    }

    /// The chain that holds the entry of the directory.
    pub closed spec fn spec_chain(&self) -> ChainIndex {
        self.chain
    }

    /// The position of the entry of the directory in its chain.
    pub closed spec fn spec_entry_index(&self) -> usize {
        self.entry_index
    }

    /// Whether the handle stands for a directory of a sound archive.
    pub open spec fn wf(&self) -> bool {
        &&& self.spec_archive().wf()
        &&& spec_is_directory(
            self.spec_archive(),
            self.spec_chain().0,
            self.spec_entry_index() as int,
        )
    }

    /// The chain that holds what is in the directory.
    pub open spec fn spec_pos_children(&self) -> u64 {
        spec_children_of(self.spec_archive(), self.spec_chain().0, self.spec_entry_index() as int)
    }

    /// The handle on the directory at position `entry_index` of the chain
    /// `chain`.
    pub fn new(archive: &'a Pk2, chain: ChainIndex, entry_index: usize) -> (r: Self)
        requires
            archive.wf(),
            spec_is_directory(archive, chain.0, entry_index as int),
        ensures
            r.spec_archive() == archive,
            r.spec_chain() == chain,
            r.spec_entry_index() == entry_index,
            r.wf(),
    {
        Directory { archive, chain, entry_index }
    }

    /// The chain that holds the entry of the directory; the reserved chain 0
    /// for the root directory.
    pub fn chain(&self) -> (r: ChainIndex)
        ensures
            r == self.spec_chain(),
    {
        self.chain
    }

    /// The position of the entry of the directory in its chain.
    pub fn entry_index(&self) -> (r: usize)
        ensures
            r == self.spec_entry_index(),
    {
        self.entry_index
    }

    /// Whether this is the root directory, opened by the path `/`.
    pub fn is_root(&self) -> (r: bool)
        ensures
            r == (self.spec_chain().0 == PK2_ROOT_BLOCK_VIRTUAL),
    {
        self.chain.0 == PK2_ROOT_BLOCK_VIRTUAL
    }

    fn entry(&self) -> (r: Option<&'a DirectoryEntry>)
        requires
            self.wf(),
        ensures
            r is Some <==> self.spec_chain().0 != PK2_ROOT_BLOCK_VIRTUAL,
            r is Some ==> PackEntryView::Directory(r->Some_0@) == spec_entry(
                self.spec_archive()@.chains,
                self.spec_chain().0,
                self.spec_entry_index() as int,
            )->Some_0,
    {
        if self.chain.0 == PK2_ROOT_BLOCK_VIRTUAL {
            return None;
        }
        match self.archive.get_entry(self.chain, self.entry_index) {
            Some(entry) => entry.as_directory(),
            None => None,
        }
    }

    /// The bytes of the name of the directory; `/` for the root directory.
    pub fn name(&self) -> (r: Vec<u8>)
        requires
            self.wf(),
        ensures
            r@ == (if self.spec_chain().0 == PK2_ROOT_BLOCK_VIRTUAL {
                seq![crate::path::SEPARATOR]
            } else {
                spec_entry(
                    self.spec_archive()@.chains,
                    self.spec_chain().0,
                    self.spec_entry_index() as int,
                )->Some_0->Directory_0.name
            }),
    {
        match self.entry() {
            Some(entry) => {
                let name = entry.name();
                let own = crate::bytes::copy_range(name, 0, name.len());
                assert(own@ =~= name@);
                own
            },
            None => {
                let mut root: Vec<u8> = Vec::new();
                root.push(crate::path::SEPARATOR);
                assert(root@ =~= seq![crate::path::SEPARATOR]);
                root
            },
        }
    }

    /// The chain that holds what is in the directory.
    pub fn pos_children(&self) -> (r: ChainIndex)
        requires
            self.wf(),
        ensures
            r.0 == self.spec_pos_children(),
    {
        match self.entry() {
            Some(entry) => entry.children_position(),
            None => ChainIndex(PK2_ROOT_BLOCK),
        }
    }

    /// What is in the directory, in the order of the entries: files, and
    /// directories other than `.` and `..`. `InvalidChainIndex` where the
    /// archive lacks the chain of the directory, or where that chain lies at
    /// the reserved offset 0.
    pub fn entries(&self) -> (r: Pk2Result<Vec<DirEntry<'a>>>)
        requires
            self.wf(),
        ensures
            match r {
                Ok(list) => {
                    let chains = self.spec_archive()@.chains;
                    let children = self.spec_pos_children();
                    &&& chains.contains_key(children)
                    &&& children != PK2_ROOT_BLOCK_VIRTUAL
                    &&& spec_listing(list@) == spec_list_positions(chain_entries(chains[children]))
                    &&& forall|i: int|
                        0 <= i < list@.len() ==> spec_dir_entry_in(
                            #[trigger] list@[i],
                            self.spec_archive(),
                            children,
                        )
                },
                Err(e) => (!self.spec_archive()@.chains.contains_key(self.spec_pos_children())
                    || self.spec_pos_children() == PK2_ROOT_BLOCK_VIRTUAL) && e
                    == Error::InvalidChainIndex,
            },
    {
        let children = self.pos_children();
        if children.0 == PK2_ROOT_BLOCK_VIRTUAL {
            return Err(Error::InvalidChainIndex);
        }
        let chain = match self.archive.get_chain(children) {
            Some(chain) => chain,
            None => {
                return Err(Error::InvalidChainIndex);
            },
        };
        let mut list: Vec<DirEntry<'a>> = Vec::new();
        let total = chain.num_entries();
        let ghost entries = chain_entries(chain@);
        let mut i: usize = 0;
        assert(entries.subrange(0, 0) =~= Seq::<PackEntryView>::empty());
        assert(spec_listing(list@) =~= Seq::<int>::empty());
        while i < total
            invariant
                i <= total,
                self.wf(),
                chain.wf(),
                total == entries.len(),
                entries == chain_entries(chain@),
                self.spec_archive()@.chains.contains_key(children.0),
                children.0 != PK2_ROOT_BLOCK_VIRTUAL,
                chain@ == self.spec_archive()@.chains[children.0],
                self.archive == self.spec_archive(),
                spec_listing(list@) == spec_list_positions(entries.subrange(0, i as int)),
                forall|k: int|
                    0 <= k < list@.len() ==> spec_dir_entry_in(
                        #[trigger] list@[k],
                        self.spec_archive(),
                        children.0,
                    ),
            decreases total - i,
        {
            proof {
                lemma_list_positions_push(entries, i as int);
            }
            let ghost before = spec_listing(list@);
            match chain.get(i) {
                Some(PackEntry::File(_)) => {
                    list.push(DirEntry::File(File::new(self.archive, children, i)));
                    assert(spec_listing(list@) =~= before + seq![i as int]);
                },
                Some(PackEntry::Directory(d)) => {
                    if d.is_normal_link() {
                        list.push(DirEntry::Directory(Directory::new(self.archive, children, i)));
                        assert(spec_listing(list@) =~= before + seq![i as int]);
                    } else {
                        assert(before + Seq::<int>::empty() =~= before);
                    }
                },
                _ => {
                    assert(before + Seq::<int>::empty() =~= before);
                },
            }
            i += 1;
        }
        assert(entries.subrange(0, total as int) =~= entries);
        Ok(list)
    }
}

impl<'a> DirEntry<'a> {
    /// The position in its chain of the entry that the item stands for.
    pub open spec fn spec_entry_index(&self) -> int {
        match self {
            DirEntry::Directory(dir) => dir.spec_entry_index() as int,
            DirEntry::File(file) => file.spec_entry_index() as int,
        }
    }
}

/// The positions of the items of a listing.
pub open spec fn spec_listing<'a>(list: Seq<DirEntry<'a>>) -> Seq<int> {
    Seq::new(list.len(), |i: int| list[i].spec_entry_index())
}

/// Whether an item of a listing is a sound handle of `archive` on an entry
/// of the chain `chain`.
pub open spec fn spec_dir_entry_in<'a>(item: DirEntry<'a>, archive: &Pk2, chain: u64) -> bool {
    match item {
        DirEntry::Directory(dir) => dir.wf() && dir.spec_archive() == archive && dir.spec_chain().0
            == chain,
        DirEntry::File(file) => file.wf() && file.spec_archive() == archive
            && file.spec_chain().0 == chain,
    }
}

/// The positions of the entries that show in a listing, in their order.
pub open spec fn spec_list_positions(entries: Seq<PackEntryView>) -> Seq<int>
    decreases entries.len(),
{
    if entries.len() == 0 {
        Seq::empty()
    } else {
        spec_list_positions(entries.drop_last()) + (if spec_listed(entries.last()) {
            seq![entries.len() - 1]
        } else {
            Seq::empty()
        })
    }
}

/// The listing of a list of entries and one more entry.
pub proof fn lemma_list_positions_push(entries: Seq<PackEntryView>, n: int)
    requires
        0 <= n < entries.len(),
    ensures
        spec_list_positions(entries.subrange(0, n + 1)) == spec_list_positions(
            entries.subrange(0, n),
        ) + (if spec_listed(entries[n]) {
            seq![n]
        } else {
            Seq::<int>::empty()
        }),
{
    let upto = entries.subrange(0, n + 1);
    assert(upto.drop_last() =~= entries.subrange(0, n));
    assert(upto.last() == entries[n]);
}

} // verus!
