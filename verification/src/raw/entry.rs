//! Entries: the 128-byte records that a block is made of.
//!
//! Stored layout, all integers little-endian:
//!
//! | bytes      | field                                             |
//! |------------|---------------------------------------------------|
//! | 0          | kind: 0 empty, 1 directory, 2 file                |
//! | 1..82      | name, ended by a zero byte and filled with zeros  |
//! | 82..90     | access time                                       |
//! | 90..98     | creation time                                     |
//! | 98..106    | modification time                                 |
//! | 106..114   | position: of the child chain, or of the payload   |
//! | 114..118   | size of the payload; zero in a directory          |
//! | 118..126   | offset of the next block of the chain, or zero    |
//! | 126..128   | zero                                              |

use vstd::prelude::*;
use crate::bytes::{
    bytes_eq, copy_range, le_bytes, le_value, zeros, push_bytes, push_u32_le, push_u64_le, push_zeros, read_u32_le,
    read_u64_le, lemma_le_bytes_len, lemma_le_roundtrip, lemma_le_value_bound, lemma_le_bytes_zero,
    lemma_pow256_values,
};
use crate::constants::{PK2_FILE_ENTRY_SIZE, PK2_MAX_NAME_LEN, PK2_NAME_FIELD_SIZE};
use crate::error::{Error, IoError, Pk2Result};
use crate::filetime::FILETIME;
use crate::raw::ChainIndex;

verus! {

/// What a directory entry holds.
pub struct DirectoryEntryView {
    pub name: Seq<u8>,
    pub access_time: FILETIME,
    pub create_time: FILETIME,
    pub modify_time: FILETIME,
    pub pos_children: u64,
    pub next_block: u64,
}

/// What a file entry holds.
pub struct FileEntryView {
    pub name: Seq<u8>,
    pub access_time: FILETIME,
    pub create_time: FILETIME,
    pub modify_time: FILETIME,
    pub position: u64,
    pub size: u32,
    pub next_block: u64,
}

/// What an entry holds.
pub enum PackEntryView {
    Empty { next_block: u64 },
    Directory(DirectoryEntryView),
    File(FileEntryView),
}

/// Whether an entry can store `name`: at most 80 bytes, none of them zero.
pub open spec fn valid_name(name: Seq<u8>) -> bool {
    &&& name.len() <= PK2_MAX_NAME_LEN
    &&& forall|i: int| 0 <= i < name.len() ==> name[i] != 0
}

/// The name `.`, by which a directory names itself.
pub open spec fn current_dir_name() -> Seq<u8> {
    seq![0x2eu8]
}

/// The name `..`, by which a directory names its parent.
pub open spec fn parent_dir_name() -> Seq<u8> {
    seq![0x2eu8, 0x2eu8]
}

impl PackEntryView {
    /// Whether the entry can be stored and read back unchanged.
    pub open spec fn wf(self) -> bool {
        match self {
            PackEntryView::Empty { .. } => true,
            PackEntryView::Directory(d) => valid_name(d.name),
            PackEntryView::File(f) => valid_name(f.name),
        }
    }

    /// The name of a directory or file; an empty entry has none.
    pub open spec fn name(self) -> Option<Seq<u8>> {
        match self {
            PackEntryView::Empty { .. } => None,
            PackEntryView::Directory(d) => Some(d.name),
            PackEntryView::File(f) => Some(f.name),
        }
    }

    /// The offset of the block that follows the block of this entry, read
    /// from the entry; zero where none follows.
    pub open spec fn next_block(self) -> u64 {
        match self {
            PackEntryView::Empty { next_block } => next_block,
            PackEntryView::Directory(d) => d.next_block,
            PackEntryView::File(f) => f.next_block,
        }
    }

    /// The same entry with another offset of the next block.
    pub open spec fn with_next_block(self, next_block: u64) -> Self {
        match self {
            PackEntryView::Empty { .. } => PackEntryView::Empty { next_block },
            PackEntryView::Directory(d) => PackEntryView::Directory(
                DirectoryEntryView { next_block, ..d },
            ),
            PackEntryView::File(f) => PackEntryView::File(FileEntryView { next_block, ..f }),
        }
    }

    /// Whether this is a directory other than `.` and `..`: one that leads to
    /// a chain of its own.
    pub open spec fn is_normal_link(self) -> bool {
        self matches PackEntryView::Directory(d) && d.is_normal_link()
    }

    /// A directory named `name` whose children are at `pos_children`.
    pub open spec fn directory(name: Seq<u8>, pos_children: u64, next_block: u64) -> Self {
        PackEntryView::Directory(
            DirectoryEntryView {
                name,
                access_time: FILETIME { dwLowDateTime: 0, dwHighDateTime: 0 },
                create_time: FILETIME { dwLowDateTime: 0, dwHighDateTime: 0 },
                modify_time: FILETIME { dwLowDateTime: 0, dwHighDateTime: 0 },
                pos_children,
                next_block,
            },
        )
    }

    /// A file named `name` of `size` bytes at `position`.
    pub open spec fn file(name: Seq<u8>, position: u64, size: u32, next_block: u64) -> Self {
        PackEntryView::File(
            FileEntryView {
                name,
                access_time: FILETIME { dwLowDateTime: 0, dwHighDateTime: 0 },
                create_time: FILETIME { dwLowDateTime: 0, dwHighDateTime: 0 },
                modify_time: FILETIME { dwLowDateTime: 0, dwHighDateTime: 0 },
                position,
                size,
                next_block,
            },
        )
    }
}

impl DirectoryEntryView {
    /// Whether this is a directory other than `.` and `..`.
    pub open spec fn is_normal_link(self) -> bool {
        self.name != current_dir_name() && self.name != parent_dir_name()
    }
}

/// The stored form of a name: the name, then zeros up to 81 bytes.
pub open spec fn name_field(name: Seq<u8>) -> Seq<u8> {
    name + zeros((PK2_NAME_FIELD_SIZE - name.len()) as nat)
}

/// The stored form of a timestamp: its low half, then its high half.
pub open spec fn filetime_bytes(time: FILETIME) -> Seq<u8> {
    le_bytes(time.dwLowDateTime as nat, 4) + le_bytes(time.dwHighDateTime as nat, 4)
}

/// The stored form of an entry: 128 bytes.
pub open spec fn spec_encode(entry: PackEntryView) -> Seq<u8> {
    match entry {
        PackEntryView::Empty { next_block } => seq![0u8] + zeros(117) + le_bytes(
            next_block as nat,
            8,
        ) + zeros(2),
        PackEntryView::Directory(d) => seq![1u8] + name_field(d.name) + filetime_bytes(
            d.access_time,
        ) + filetime_bytes(d.create_time) + filetime_bytes(d.modify_time) + le_bytes(
            d.pos_children as nat,
            8,
        ) + zeros(4) + le_bytes(d.next_block as nat, 8) + zeros(2),
        PackEntryView::File(f) => seq![2u8] + name_field(f.name) + filetime_bytes(f.access_time)
            + filetime_bytes(f.create_time) + filetime_bytes(f.modify_time) + le_bytes(
            f.position as nat,
            8,
        ) + le_bytes(f.size as nat, 4) + le_bytes(f.next_block as nat, 8) + zeros(2),
    }
}

/// The position of the first zero byte of `field`, or its length where it
/// holds none.
pub open spec fn nul_position(field: Seq<u8>) -> nat
    decreases field.len(),
{
    if field.len() == 0 || field[0] == 0 {
        0
    } else {
        1 + nul_position(field.skip(1))
    }
}

/// The timestamp stored in the eight bytes of `bytes` that start at `at`.
pub open spec fn filetime_at(bytes: Seq<u8>, at: int) -> FILETIME {
    FILETIME {
        dwLowDateTime: le_value(bytes.subrange(at, at + 4)) as u32,
        dwHighDateTime: le_value(bytes.subrange(at + 4, at + 8)) as u32,
    }
}

/// The entry that 128 stored bytes stand for, or `None` where they stand for
/// none: the kind is not one of the three, or the name has no end.
pub open spec fn spec_decode(bytes: Seq<u8>) -> Option<PackEntryView>
    recommends
        bytes.len() == PK2_FILE_ENTRY_SIZE,
{
    let kind = bytes[0];
    let field = bytes.subrange(1, 82);
    let end = nul_position(field) as int;
    let next_block = le_value(bytes.subrange(118, 126)) as u64;
    if kind == 0 {
        Some(PackEntryView::Empty { next_block })
    } else if end >= PK2_NAME_FIELD_SIZE {
        None
    } else if kind == 1 {
        Some(
            PackEntryView::Directory(
                DirectoryEntryView {
                    name: field.subrange(0, end),
                    access_time: filetime_at(bytes, 82),
                    create_time: filetime_at(bytes, 90),
                    modify_time: filetime_at(bytes, 98),
                    pos_children: le_value(bytes.subrange(106, 114)) as u64,
                    next_block,
                },
            ),
        )
    } else if kind == 2 {
        Some(
            PackEntryView::File(
                FileEntryView {
                    name: field.subrange(0, end),
                    access_time: filetime_at(bytes, 82),
                    create_time: filetime_at(bytes, 90),
                    modify_time: filetime_at(bytes, 98),
                    position: le_value(bytes.subrange(106, 114)) as u64,
                    size: le_value(bytes.subrange(114, 118)) as u32,
                    next_block,
                },
            ),
        )
    } else {
        None
    }
}

/// What reading an entry from the front of `bytes` gives.
pub open spec fn spec_read_entry(bytes: Seq<u8>) -> Pk2Result<PackEntryView> {
    if bytes.len() < PK2_FILE_ENTRY_SIZE {
        Err(Error::Io(IoError::UnexpectedEof))
    } else {
        match spec_decode(bytes.subrange(0, PK2_FILE_ENTRY_SIZE as int)) {
            Some(entry) => Ok(entry),
            None => Err(Error::Corrupt),
        }
    }
}

/// Where the first zero byte of a field lies, told from the bytes before it.
pub proof fn lemma_nul_position(field: Seq<u8>, end: int)
    requires
        0 <= end <= field.len(),
        forall|i: int| 0 <= i < end ==> field[i] != 0,
        end == field.len() || field[end] == 0,
    ensures
        nul_position(field) == end,
    decreases end,
{
    if end > 0 {
        lemma_nul_position(field.skip(1), end - 1);
    }
}

/// The bytes before the first zero byte of a field hold no zero.
pub proof fn lemma_nul_position_valid(field: Seq<u8>)
    ensures
        nul_position(field) <= field.len(),
        forall|i: int| 0 <= i < nul_position(field) ==> field[i] != 0,
        nul_position(field) < field.len() ==> field[nul_position(field) as int] == 0,
    decreases field.len(),
{
    if !(field.len() == 0 || field[0] == 0) {
        lemma_nul_position_valid(field.skip(1));
        assert forall|i: int| 0 <= i < nul_position(field) implies field[i] != 0 by {
            if i > 0 {
                assert(field[i] == field.skip(1)[i - 1]);
            }
        }
    }
}

/// The stored form of an entry is 128 bytes long.
pub proof fn lemma_encode_len(entry: PackEntryView)
    requires
        entry.wf(),
    ensures
        spec_encode(entry).len() == PK2_FILE_ENTRY_SIZE,
{
    lemma_le_bytes_len(entry.next_block() as nat, 8);
    match entry {
        PackEntryView::Empty { .. } => {},
        PackEntryView::Directory(d) => {
            lemma_filetime_bytes_len(d.access_time);
            lemma_filetime_bytes_len(d.create_time);
            lemma_filetime_bytes_len(d.modify_time);
            lemma_le_bytes_len(d.pos_children as nat, 8);
        },
        PackEntryView::File(f) => {
            lemma_filetime_bytes_len(f.access_time);
            lemma_filetime_bytes_len(f.create_time);
            lemma_filetime_bytes_len(f.modify_time);
            lemma_le_bytes_len(f.position as nat, 8);
            lemma_le_bytes_len(f.size as nat, 4);
        },
    }
}

/// The stored form of a timestamp is eight bytes long.
pub proof fn lemma_filetime_bytes_len(time: FILETIME)
    ensures
        filetime_bytes(time).len() == 8,
{
    lemma_le_bytes_len(time.dwLowDateTime as nat, 4);
    lemma_le_bytes_len(time.dwHighDateTime as nat, 4);
}

/// A timestamp is read back from its stored form, wherever that form stands.
proof fn lemma_filetime_at(bytes: Seq<u8>, at: int, time: FILETIME)
    requires
        0 <= at,
        at + 8 <= bytes.len(),
        bytes.subrange(at, at + 8) == filetime_bytes(time),
    ensures
        filetime_at(bytes, at) == time,
{
    lemma_le_bytes_len(time.dwLowDateTime as nat, 4);
    lemma_le_bytes_len(time.dwHighDateTime as nat, 4);
    lemma_pow256_values();
    lemma_le_roundtrip(time.dwLowDateTime as nat, 4);
    lemma_le_roundtrip(time.dwHighDateTime as nat, 4);
    let whole = bytes.subrange(at, at + 8);
    assert(bytes.subrange(at, at + 4) =~= whole.subrange(0, 4));
    assert(bytes.subrange(at + 4, at + 8) =~= whole.subrange(4, 8));
    assert(whole.subrange(0, 4) =~= le_bytes(time.dwLowDateTime as nat, 4));
    assert(whole.subrange(4, 8) =~= le_bytes(time.dwHighDateTime as nat, 4));
}

/// A name is read back from its stored form.
proof fn lemma_name_field(name: Seq<u8>)
    requires
        valid_name(name),
    ensures
        name_field(name).len() == PK2_NAME_FIELD_SIZE,
        nul_position(name_field(name)) == name.len(),
        name_field(name).subrange(0, name.len() as int) == name,
{
    let field = name_field(name);
    lemma_nul_position(field, name.len() as int);
    assert(field.subrange(0, name.len() as int) =~= name);
}

/// An entry that is stored and read back is the same entry.
pub proof fn lemma_decode_encode(entry: PackEntryView)
    requires
        entry.wf(),
    ensures
        spec_encode(entry).len() == PK2_FILE_ENTRY_SIZE,
        spec_decode(spec_encode(entry)) == Some(entry),
{
    let bytes = spec_encode(entry);
    lemma_encode_len(entry);
    lemma_pow256_values();
    lemma_le_bytes_len(entry.next_block() as nat, 8);
    lemma_le_roundtrip(entry.next_block() as nat, 8);
    match entry {
        PackEntryView::Empty { next_block } => {
            assert(bytes.subrange(118, 126) =~= le_bytes(next_block as nat, 8));
        },
        PackEntryView::Directory(d) => {
            lemma_name_field(d.name);
            lemma_filetime_bytes_len(d.access_time);
            lemma_filetime_bytes_len(d.create_time);
            lemma_filetime_bytes_len(d.modify_time);
            lemma_le_bytes_len(d.pos_children as nat, 8);
            lemma_le_roundtrip(d.pos_children as nat, 8);
            assert(bytes.subrange(1, 82) =~= name_field(d.name));
            assert(bytes.subrange(82, 90) =~= filetime_bytes(d.access_time));
            assert(bytes.subrange(90, 98) =~= filetime_bytes(d.create_time));
            assert(bytes.subrange(98, 106) =~= filetime_bytes(d.modify_time));
            assert(bytes.subrange(106, 114) =~= le_bytes(d.pos_children as nat, 8));
            assert(bytes.subrange(118, 126) =~= le_bytes(d.next_block as nat, 8));
            lemma_filetime_at(bytes, 82, d.access_time);
            lemma_filetime_at(bytes, 90, d.create_time);
            lemma_filetime_at(bytes, 98, d.modify_time);
        },
        PackEntryView::File(f) => {
            lemma_name_field(f.name);
            lemma_filetime_bytes_len(f.access_time);
            lemma_filetime_bytes_len(f.create_time);
            lemma_filetime_bytes_len(f.modify_time);
            lemma_le_bytes_len(f.position as nat, 8);
            lemma_le_roundtrip(f.position as nat, 8);
            lemma_le_bytes_len(f.size as nat, 4);
            lemma_le_roundtrip(f.size as nat, 4);
            assert(bytes.subrange(1, 82) =~= name_field(f.name));
            assert(bytes.subrange(82, 90) =~= filetime_bytes(f.access_time));
            assert(bytes.subrange(90, 98) =~= filetime_bytes(f.create_time));
            assert(bytes.subrange(98, 106) =~= filetime_bytes(f.modify_time));
            assert(bytes.subrange(106, 114) =~= le_bytes(f.position as nat, 8));
            assert(bytes.subrange(114, 118) =~= le_bytes(f.size as nat, 4));
            assert(bytes.subrange(118, 126) =~= le_bytes(f.next_block as nat, 8));
            lemma_filetime_at(bytes, 82, f.access_time);
            lemma_filetime_at(bytes, 90, f.create_time);
            lemma_filetime_at(bytes, 98, f.modify_time);
        },
    }
}

/// Whatever is read from stored bytes can be stored again.
pub proof fn lemma_decode_wf(bytes: Seq<u8>)
    requires
        bytes.len() == PK2_FILE_ENTRY_SIZE,
        spec_decode(bytes) is Some,
    ensures
        spec_decode(bytes)->Some_0.wf(),
{
    lemma_nul_position_valid(bytes.subrange(1, 82));
}

/// An empty entry that links no further block is stored as 128 zero bytes.
pub proof fn lemma_encode_empty()
    ensures
        spec_encode(PackEntryView::Empty { next_block: 0 }) == zeros(128),
{
    lemma_le_bytes_zero(8);
    assert(spec_encode(PackEntryView::Empty { next_block: 0 }) =~= zeros(128));
}

/// A directory: a name, and the chain that holds what is in it.
#[derive(Debug)]
pub struct DirectoryEntry {
    name: Vec<u8>,
    access_time: FILETIME,
    create_time: FILETIME,
    modify_time: FILETIME,
    pos_children: u64,
    next_block: u64,
}

impl View for DirectoryEntry {
    type V = DirectoryEntryView;

    closed spec fn view(&self) -> DirectoryEntryView {
        DirectoryEntryView {
            name: self.name@,
            access_time: self.access_time,
            create_time: self.create_time,
            modify_time: self.modify_time,
            pos_children: self.pos_children,
            next_block: self.next_block,
        }
    }
}

impl Clone for DirectoryEntry {
    fn clone(&self) -> (r: Self)
        ensures
            r@ == self@,
    {
        let name = copy_range(self.name.as_slice(), 0, self.name.len());
        assert(name@ =~= self.name@);
        DirectoryEntry {
            name,
            access_time: self.access_time,
            create_time: self.create_time,
            modify_time: self.modify_time,
            pos_children: self.pos_children,
            next_block: self.next_block,
        }
    }
}

impl DirectoryEntry {
    /// The bytes of the name.
    pub fn name(&self) -> (r: &[u8])
        ensures
            r@ == self@.name,
    {
        self.name.as_slice()
    }

    /// The offset of the first block of the chain that holds the children.
    pub fn children_position(&self) -> (r: ChainIndex)
        ensures
            r.0 == self@.pos_children,
    {
        ChainIndex(self.pos_children)
    }

    /// When the directory was last read.
    pub fn access_time(&self) -> (r: FILETIME)
        ensures
            r == self@.access_time,
    {
        self.access_time
    }

    /// When the directory was created.
    pub fn create_time(&self) -> (r: FILETIME)
        ensures
            r == self@.create_time,
    {
        self.create_time
    }

    /// When the directory was last changed.
    pub fn modify_time(&self) -> (r: FILETIME)
        ensures
            r == self@.modify_time,
    {
        self.modify_time
    }

    /// Whether this directory is `.`.
    pub fn is_current_link(&self) -> (r: bool)
        ensures
            r == (self@.name == current_dir_name()),
    {
        let r = self.name.len() == 1 && self.name[0] == 0x2eu8;
        assert(r == (self.name@ =~= current_dir_name()));
        r
    }

    /// Whether this directory is `..`.
    pub fn is_parent_link(&self) -> (r: bool)
        ensures
            r == (self@.name == parent_dir_name()),
    {
        let r = self.name.len() == 2 && self.name[0] == 0x2eu8 && self.name[1] == 0x2eu8;
        assert(r == (self.name@ =~= parent_dir_name()));
        r
    }

    /// Whether this directory is neither `.` nor `..`, and so leads to a chain
    /// of its own.
    pub fn is_normal_link(&self) -> (r: bool)
        ensures
            r == self@.is_normal_link(),
    {
        !(self.is_current_link() || self.is_parent_link())
    }
}

/// A file: a name, and where its payload lies.
#[derive(Debug)]
pub struct FileEntry {
    name: Vec<u8>,
    access_time: FILETIME,
    create_time: FILETIME,
    modify_time: FILETIME,
    position: u64,
    size: u32,
    next_block: u64,
}

impl View for FileEntry {
    type V = FileEntryView;

    closed spec fn view(&self) -> FileEntryView {
        FileEntryView {
            name: self.name@,
            access_time: self.access_time,
            create_time: self.create_time,
            modify_time: self.modify_time,
            position: self.position,
            size: self.size,
            next_block: self.next_block,
        }
    }
}

impl Clone for FileEntry {
    fn clone(&self) -> (r: Self)
        ensures
            r@ == self@,
    {
        let name = copy_range(self.name.as_slice(), 0, self.name.len());
        assert(name@ =~= self.name@);
        FileEntry {
            name,
            access_time: self.access_time,
            create_time: self.create_time,
            modify_time: self.modify_time,
            position: self.position,
            size: self.size,
            next_block: self.next_block,
        }
    }
}

impl FileEntry {
    /// The bytes of the name.
    pub fn name(&self) -> (r: &[u8])
        ensures
            r@ == self@.name,
    {
        self.name.as_slice()
    }

    /// The offset of the payload.
    pub fn position(&self) -> (r: u64)
        ensures
            r == self@.position,
    {
        self.position
    }

    /// The length of the payload in bytes.
    pub fn size(&self) -> (r: u32)
        ensures
            r == self@.size,
    {
        self.size
    }

    /// When the file was last read.
    pub fn access_time(&self) -> (r: FILETIME)
        ensures
            r == self@.access_time,
    {
        self.access_time
    }

    /// When the file was created.
    pub fn create_time(&self) -> (r: FILETIME)
        ensures
            r == self@.create_time,
    {
        self.create_time
    }

    /// When the file was last changed.
    pub fn modify_time(&self) -> (r: FILETIME)
        ensures
            r == self@.modify_time,
    {
        self.modify_time
    }
}

/// One slot of a block: unused, a directory, or a file.
#[derive(Debug)]
pub enum PackEntry {
    Empty { next_block: u64 },
    Directory(DirectoryEntry),
    File(FileEntry),
}

impl View for PackEntry {
    type V = PackEntryView;

    open spec fn view(&self) -> PackEntryView {
        match self {
            PackEntry::Empty { next_block } => PackEntryView::Empty { next_block: *next_block },
            PackEntry::Directory(d) => PackEntryView::Directory(d@),
            PackEntry::File(f) => PackEntryView::File(f@),
        }
    }
}

impl Clone for PackEntry {
    fn clone(&self) -> (r: Self)
        ensures
            r@ == self@,
    {
        match self {
            PackEntry::Empty { next_block } => PackEntry::Empty { next_block: *next_block },
            PackEntry::Directory(d) => PackEntry::Directory(d.clone()),
            PackEntry::File(f) => PackEntry::File(f.clone()),
        }
    }
}

impl Default for PackEntry {
    fn default() -> (r: Self)
        ensures
            r@ == (PackEntryView::Empty { next_block: 0 }),
    {
        PackEntry::Empty { next_block: 0 }
    }
}

/// Whether an entry can store the bytes of `name`.
pub fn is_valid_name(name: &[u8]) -> (r: bool)
    ensures
        r == valid_name(name@),
{
    if name.len() > PK2_MAX_NAME_LEN {
        return false;
    }
    let mut i: usize = 0;
    while i < name.len()
        invariant
            i <= name.len() <= PK2_MAX_NAME_LEN,
            forall|j: int| 0 <= j < i ==> name@[j] != 0,
        decreases name.len() - i,
    {
        if name[i] == 0 {
            return false;
        }
        i += 1;
    }
    true
}

/// The offset that stands for `next_block` in an entry: zero for none.
pub open spec fn spec_link(next_block: Option<u64>) -> u64 {
    match next_block {
        Some(offset) => offset,
        None => 0,
    }
}

fn link(next_block: Option<u64>) -> (r: u64)
    ensures
        r == spec_link(next_block),
{
    match next_block {
        Some(offset) => offset,
        None => 0,
    }
}

fn read_filetime(bytes: &[u8], at: usize) -> (r: FILETIME)
    requires
        at + 8 <= bytes.len(),
    ensures
        r == filetime_at(bytes@, at as int),
{
    let low = read_u32_le(bytes, at);
    let high = read_u32_le(bytes, at + 4);
    FILETIME { dwLowDateTime: low, dwHighDateTime: high }
}

fn push_filetime(out: &mut Vec<u8>, time: FILETIME)
    ensures
        final(out)@ == old(out)@ + filetime_bytes(time),
{
    push_u32_le(out, time.dwLowDateTime);
    push_u32_le(out, time.dwHighDateTime);
    assert(out@ =~= old(out)@ + filetime_bytes(time));
}

fn push_name_field(out: &mut Vec<u8>, name: &[u8])
    requires
        name@.len() <= PK2_MAX_NAME_LEN,
    ensures
        final(out)@ == old(out)@ + name_field(name@),
{
    push_bytes(out, name);
    push_zeros(out, PK2_NAME_FIELD_SIZE - name.len());
    assert(out@ =~= old(out)@ + name_field(name@));
}

impl PackEntry {
    /// An unused entry that links no further block.
    pub fn new_empty() -> (r: Self)
        ensures
            r@ == (PackEntryView::Empty { next_block: 0 }),
    {
        PackEntry::Empty { next_block: 0 }
    }

    /// A directory named `name` whose children are in the chain at
    /// `pos_children`, with all its timestamps zero.
    pub fn new_directory(name: &[u8], pos_children: ChainIndex, next_block: Option<u64>) -> (r:
        Self)
        requires
            valid_name(name@),
        ensures
            r@ == PackEntryView::directory(name@, pos_children.0, spec_link(next_block)),
            r@.wf(),
    {
        let zero = FILETIME { dwLowDateTime: 0, dwHighDateTime: 0 };
        let own = copy_range(name, 0, name.len());
        assert(own@ =~= name@);
        PackEntry::Directory(
            DirectoryEntry {
                name: own,
                access_time: zero,
                create_time: zero,
                modify_time: zero,
                pos_children: pos_children.0,
                next_block: link(next_block),
            },
        )
    }

    /// A file named `name` of `size` bytes whose payload is at `position`,
    /// with all its timestamps zero.
    pub fn new_file(name: &[u8], position: u64, size: u32, next_block: Option<u64>) -> (r: Self)
        requires
            valid_name(name@),
        ensures
            r@ == PackEntryView::file(name@, position, size, spec_link(next_block)),
            r@.wf(),
    {
        let zero = FILETIME { dwLowDateTime: 0, dwHighDateTime: 0 };
        let own = copy_range(name, 0, name.len());
        assert(own@ =~= name@);
        PackEntry::File(
            FileEntry {
                name: own,
                access_time: zero,
                create_time: zero,
                modify_time: zero,
                position,
                size,
                next_block: link(next_block),
            },
        )
    }

    /// The directory `.` of the chain at `own`: the chain's entry for itself.
    pub fn current_dir(own: ChainIndex) -> (r: Self)
        ensures
            r@ == PackEntryView::directory(current_dir_name(), own.0, 0),
            r@.wf(),
    {
        let name: [u8; 1] = [0x2eu8];
        assert(name@ =~= current_dir_name());
        Self::new_directory(name.as_slice(), own, None)
    }

    /// The directory `..` of a chain whose parent is the chain at `parent`.
    pub fn parent_dir(parent: ChainIndex) -> (r: Self)
        ensures
            r@ == PackEntryView::directory(parent_dir_name(), parent.0, 0),
            r@.wf(),
    {
        let name: [u8; 2] = [0x2eu8, 0x2eu8];
        assert(name@ =~= parent_dir_name());
        Self::new_directory(name.as_slice(), parent, None)
    }

    /// Whether the entry is unused.
    pub fn is_empty(&self) -> (r: bool)
        ensures
            r == (self@ is Empty),
    {
        match self {
            PackEntry::Empty { .. } => true,
            _ => false,
        }
    }

    /// Whether the entry is a directory.
    pub fn is_dir(&self) -> (r: bool)
        ensures
            r == (self@ is Directory),
    {
        match self {
            PackEntry::Directory(_) => true,
            _ => false,
        }
    }

    /// Whether the entry is a file.
    pub fn is_file(&self) -> (r: bool)
        ensures
            r == (self@ is File),
    {
        match self {
            PackEntry::File(_) => true,
            _ => false,
        }
    }

    /// The directory that this entry is, if it is one.
    pub fn as_directory(&self) -> (r: Option<&DirectoryEntry>)
        ensures
            r is Some <==> self@ is Directory,
            r is Some ==> self@ == PackEntryView::Directory(r->Some_0@),
    {
        match self {
            PackEntry::Directory(d) => Some(d),
            _ => None,
        }
    }

    /// The file that this entry is, if it is one.
    pub fn as_file(&self) -> (r: Option<&FileEntry>)
        ensures
            r is Some <==> self@ is File,
            r is Some ==> self@ == PackEntryView::File(r->Some_0@),
    {
        match self {
            PackEntry::File(f) => Some(f),
            _ => None,
        }
    }

    /// The bytes of the name of a directory or file; `None` for an unused
    /// entry.
    pub fn name(&self) -> (r: Option<&[u8]>)
        ensures
            r is Some <==> self@.name() is Some,
            r is Some ==> r->Some_0@ == self@.name()->Some_0,
    {
        match self {
            PackEntry::Empty { .. } => None,
            PackEntry::Directory(d) => Some(d.name()),
            PackEntry::File(f) => Some(f.name()),
        }
    }

    /// Whether this entry is a directory or file named `name`.
    pub fn has_name(&self, name: &[u8]) -> (r: bool)
        ensures
            r == (self@.name() == Some(name@)),
    {
        match self.name() {
            Some(own) => bytes_eq(own, name),
            None => false,
        }
    }

    /// The offset of the block that follows the block of this entry, as the
    /// entry has it; `None` where it has zero.
    pub fn next_block(&self) -> (r: Option<u64>)
        ensures
            r == (if self@.next_block() == 0 {
                None
            } else {
                Some(self@.next_block())
            }),
    {
        let offset = match self {
            PackEntry::Empty { next_block } => *next_block,
            PackEntry::Directory(d) => d.next_block,
            PackEntry::File(f) => f.next_block,
        };
        if offset == 0 {
            None
        } else {
            Some(offset)
        }
    }

    /// Sets the offset of the block that follows the block of this entry.
    pub fn set_next_block(&mut self, next_block: u64)
        ensures
            final(self)@ == old(self)@.with_next_block(next_block),
            old(self)@.wf() ==> final(self)@.wf(),
    {
        match self {
            PackEntry::Empty { next_block: own } => {
                *own = next_block;
            },
            PackEntry::Directory(d) => {
                d.next_block = next_block;
            },
            PackEntry::File(f) => {
                f.next_block = next_block;
            },
        }
    }

    /// Makes the entry unused. The offset of the next block stays, since the
    /// chain runs through it.
    pub fn clear(&mut self)
        ensures
            final(self)@ == (PackEntryView::Empty { next_block: old(self)@.next_block() }),
    {
        let kept = link(self.next_block());
        *self = PackEntry::Empty { next_block: kept };
    }

    /// Reads an entry from the first 128 bytes of `bytes`.
    pub fn from_reader(bytes: &[u8]) -> (r: Pk2Result<Self>)
        ensures
            match r {
                Ok(entry) => spec_read_entry(bytes@) == Ok::<PackEntryView, Error>(entry@)
                    && entry@.wf(),
                Err(e) => spec_read_entry(bytes@) == Err::<PackEntryView, Error>(e),
            },
    {
        if bytes.len() < PK2_FILE_ENTRY_SIZE {
            return Err(Error::Io(IoError::UnexpectedEof));
        }
        let ghost stored = bytes@.subrange(0, PK2_FILE_ENTRY_SIZE as int);
        let ghost field = stored.subrange(1, 82);
        proof {
            lemma_pow256_values();
            lemma_le_value_bound(stored.subrange(118, 126));
            lemma_le_value_bound(stored.subrange(106, 114));
            lemma_le_value_bound(stored.subrange(114, 118));
            assert(bytes@.subrange(118, 126) =~= stored.subrange(118, 126));
            assert(bytes@.subrange(106, 114) =~= stored.subrange(106, 114));
            assert(bytes@.subrange(114, 118) =~= stored.subrange(114, 118));
            assert(bytes@.subrange(82, 86) =~= stored.subrange(82, 86));
            assert(bytes@.subrange(86, 90) =~= stored.subrange(86, 90));
            assert(bytes@.subrange(90, 94) =~= stored.subrange(90, 94));
            assert(bytes@.subrange(94, 98) =~= stored.subrange(94, 98));
            assert(bytes@.subrange(98, 102) =~= stored.subrange(98, 102));
            assert(bytes@.subrange(102, 106) =~= stored.subrange(102, 106));
        }
        let kind = bytes[0];
        let next_block = read_u64_le(bytes, 118);
        if kind == 0 {
            return Ok(PackEntry::Empty { next_block });
        }
        let mut end: usize = 0;
        while end < PK2_NAME_FIELD_SIZE && bytes[1 + end] != 0
            invariant
                end <= PK2_NAME_FIELD_SIZE,
                bytes.len() >= PK2_FILE_ENTRY_SIZE,
                field == bytes@.subrange(0, PK2_FILE_ENTRY_SIZE as int).subrange(1, 82),
                forall|j: int| 0 <= j < end ==> field[j] != 0,
            decreases PK2_NAME_FIELD_SIZE - end,
        {
            end += 1;
        }
        proof {
            lemma_nul_position(field, end as int);
        }
        if end >= PK2_NAME_FIELD_SIZE {
            return Err(Error::Corrupt);
        }
        if kind != 1 && kind != 2 {
            return Err(Error::Corrupt);
        }
        let name = copy_range(bytes, 1, 1 + end);
        assert(name@ =~= field.subrange(0, end as int));
        let access_time = read_filetime(bytes, 82);
        let create_time = read_filetime(bytes, 90);
        let modify_time = read_filetime(bytes, 98);
        let position = read_u64_le(bytes, 106);
        if kind == 1 {
            Ok(
                PackEntry::Directory(
                    DirectoryEntry {
                        name,
                        access_time,
                        create_time,
                        modify_time,
                        pos_children: position,
                        next_block,
                    },
                ),
            )
        } else {
            let size = read_u32_le(bytes, 114);
            Ok(
                PackEntry::File(
                    FileEntry {
                        name,
                        access_time,
                        create_time,
                        modify_time,
                        position,
                        size,
                        next_block,
                    },
                ),
            )
        }
    }

    /// Appends the 128 stored bytes of the entry to `out`.
    pub fn to_writer(&self, out: &mut Vec<u8>)
        requires
            self@.wf(),
        ensures
            final(out)@ == old(out)@ + spec_encode(self@),
            final(out)@.len() == old(out)@.len() + PK2_FILE_ENTRY_SIZE,
    {
        proof {
            lemma_encode_len(self@);
        }
        match self {
            PackEntry::Empty { next_block } => {
                out.push(0u8);
                push_zeros(out, 117);
                push_u64_le(out, *next_block);
                push_zeros(out, 2);
                assert(out@ =~= old(out)@ + spec_encode(self@));
            },
            PackEntry::Directory(d) => {
                out.push(1u8);
                push_name_field(out, d.name.as_slice());
                push_filetime(out, d.access_time);
                push_filetime(out, d.create_time);
                push_filetime(out, d.modify_time);
                push_u64_le(out, d.pos_children);
                push_zeros(out, 4);
                push_u64_le(out, d.next_block);
                push_zeros(out, 2);
                assert(out@ =~= old(out)@ + spec_encode(self@));
            },
            PackEntry::File(f) => {
                out.push(2u8);
                push_name_field(out, f.name.as_slice());
                push_filetime(out, f.access_time);
                push_filetime(out, f.create_time);
                push_filetime(out, f.modify_time);
                push_u64_le(out, f.position);
                push_u32_le(out, f.size);
                push_u64_le(out, f.next_block);
                push_zeros(out, 2);
                assert(out@ =~= old(out)@ + spec_encode(self@));
            },
        }
    }
}

} // verus!
