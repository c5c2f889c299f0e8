//! The stream and the cache say the same: every block that the cache holds
//! is the block that the stream holds at its offset.

use vstd::prelude::*;
use crate::archive::{
    Pk2View, header_for, root_block, spec_create_entry_at, spec_create_file, spec_create_from,
    spec_delete_file, spec_find_slot, spec_fresh_archive, spec_make_directory, spec_open,
    spec_open_file, lemma_fresh_header,
};
use crate::archive::consistency::{
    archive_inv, spec_link, lemma_append_block_len, lemma_create_from_inv, lemma_find_slot_inv,
    lemma_fresh_archive_inv, lemma_open_inv, lemma_read_block_wf,
};
use crate::constants::{PK2_MAX_CHAIN_BLOCKS, PK2_ROOT_BLOCK};
use crate::blowfish::{BlowfishView, spec_decrypt, lemma_decrypt_concat, lemma_decrypt_encrypt};
use crate::constants::{PK2_FILE_BLOCK_SIZE, PK2_FILE_ENTRY_SIZE};
use crate::error::Error;
use crate::io::{
    can_append_block, can_write_entry, new_chain_entries, spec_read_block, spec_seal,
    spec_unseal, spec_write, spec_write_block, spec_write_entry, lemma_read_written_block,
    lemma_seal_len, lemma_write_then_read,
};
use crate::path::{spec_check_root, spec_components, spec_is_text};
use crate::raw::block_chain::{
    PackBlockView, chain_entries, chain_pushed_and_linked, chain_wf, chain_with_entry,
    empty_entries, entry_bytes, first_index, named, spec_decode_entries, spec_encode_entries,
    spec_file_offset_for_entry, spec_find_child, unused, lemma_chain_with_entry,
    lemma_encode_entries, lemma_first_index,
};
use crate::raw::block_manager::{
    ChainsView, chain_budget, child_links, spec_load, spec_read_chain, spec_resolve_entry,
    spec_validate_dir_path,
};
use crate::raw::entry::{
    PackEntryView, parent_dir_name, spec_decode, spec_encode, valid_name, lemma_decode_encode,
};
use crate::raw::header::spec_encode_header;

verus! {

/// Whether two blocks, at the offsets `a` and `b`, share no byte.
pub open spec fn blocks_apart(a: u64, b: u64) -> bool {
    a + PK2_FILE_BLOCK_SIZE <= b || b + PK2_FILE_BLOCK_SIZE <= a
}

/// Whether every block of every chain is the block that the image holds at
/// its offset.
pub open spec fn stored(cipher: Option<BlowfishView>, image: Seq<u8>, chains: ChainsView) -> bool {
    forall|k: u64, i: int|
        chains.contains_key(k) && 0 <= i < chains[k].len() ==> spec_read_block(
            cipher,
            image,
            (#[trigger] chains[k][i]).offset,
        ) == Ok::<PackBlockView, Error>(chains[k][i])
}

/// Whether no two blocks of the chains share a byte.
pub open spec fn apart(chains: ChainsView) -> bool {
    forall|k1: u64, i1: int, k2: u64, i2: int|
        chains.contains_key(k1) && 0 <= i1 < chains[k1].len() && chains.contains_key(k2) && 0
            <= i2 < chains[k2].len() && (k1 != k2 || i1 != i2) ==> blocks_apart(
            (#[trigger] chains[k1][i1]).offset,
            (#[trigger] chains[k2][i2]).offset,
        )
}

/// Whether an archive is coherent: it is sound, its blocks share no bytes,
/// and the stream holds each of them as the cache has it.
pub open spec fn coherent(archive: Pk2View) -> bool {
    &&& archive_inv(archive)
    &&& apart(archive.chains)
    &&& stored(archive.cipher, archive.image, archive.chains)
}

/// What is stored in a region is unsealed part by part, where the parts are
/// whole entries.
proof fn lemma_unseal_three(cipher: Option<BlowfishView>, a: Seq<u8>, c: Seq<u8>, b: Seq<u8>)
    requires
        a.len() % 8 == 0,
        c.len() % 8 == 0,
    ensures
        spec_unseal(cipher, a + c + b) == spec_unseal(cipher, a) + spec_unseal(cipher, c)
            + spec_unseal(cipher, b),
{
    if cipher is Some {
        let v = cipher->Some_0;
        assert(a + c + b =~= a + (c + b));
        lemma_decrypt_concat(v, a, c + b);
        lemma_decrypt_concat(v, c, b);
        assert(spec_decrypt(v, a) + (spec_decrypt(v, c) + spec_decrypt(v, b)) =~= spec_decrypt(v, a)
            + spec_decrypt(v, c) + spec_decrypt(v, b));
    }
}

/// A region of whole entries in which one entry is stored anew holds that
/// entry in its place, and the other entries as before.
proof fn lemma_replace_entry(
    cipher: Option<BlowfishView>,
    region: Seq<u8>,
    slot: int,
    entry: PackEntryView,
)
    requires
        region.len() == PK2_FILE_BLOCK_SIZE,
        0 <= slot < 20,
        entry.wf(),
    ensures
        ({
            let at = slot * PK2_FILE_ENTRY_SIZE;
            let after = spec_write(region, at, spec_seal(cipher, spec_encode(entry)));
            let plain = spec_unseal(cipher, region);
            let plain_after = spec_unseal(cipher, after);
            &&& after.len() == region.len()
            &&& plain_after.len() == PK2_FILE_BLOCK_SIZE
            &&& plain.len() == PK2_FILE_BLOCK_SIZE
            &&& entry_bytes(plain_after, slot) == spec_encode(entry)
            &&& forall|i: int|
                0 <= i < 20 && i != slot ==> #[trigger] entry_bytes(plain_after, i) == entry_bytes(
                    plain,
                    i,
                )
        }),
{
    let at = slot * 128;
    let sealed = spec_seal(cipher, spec_encode(entry));
    lemma_decode_encode(entry);
    lemma_seal_len(cipher, spec_encode(entry));
    lemma_write_then_read(region, at, sealed);
    let after = spec_write(region, at, sealed);
    let a = region.subrange(0, at);
    let c = region.subrange(at, at + 128);
    let b = region.subrange(at + 128, 2560);
    assert(region =~= a + c + b);
    assert(after =~= a + sealed + b);
    lemma_unseal_three(cipher, a, c, b);
    lemma_unseal_three(cipher, a, sealed, b);
    lemma_seal_len(cipher, a);
    lemma_seal_len(cipher, b);
    lemma_seal_len(cipher, c);
    lemma_seal_len(cipher, sealed);
    lemma_seal_len(cipher, region);
    lemma_seal_len(cipher, after);
    let pa = spec_unseal(cipher, a);
    let pb = spec_unseal(cipher, b);
    let pc = spec_unseal(cipher, c);
    let pe = spec_unseal(cipher, sealed);
    assert(pe == spec_encode(entry)) by {
        if cipher is Some {
            lemma_decrypt_encrypt(cipher->Some_0, spec_encode(entry));
        }
    }
    let plain = pa + pc + pb;
    let plain_after = pa + pe + pb;
    assert(entry_bytes(plain_after, slot) =~= pe);
    assert forall|i: int| 0 <= i < 20 && i != slot implies #[trigger] entry_bytes(plain_after, i)
        == entry_bytes(plain, i) by {
        assert(entry_bytes(plain_after, i) =~= entry_bytes(plain, i));
    }
}

/// An entry that is written into a block that the image holds is in the
/// block that the image holds afterwards, in its slot; the other entries of
/// the block are as before, and no byte outside the block has changed.
pub proof fn lemma_write_entry_in_block(
    cipher: Option<BlowfishView>,
    image: Seq<u8>,
    block: PackBlockView,
    slot: int,
    entry: PackEntryView,
)
    requires
        image.len() <= usize::MAX,
        0 <= slot < 20,
        entry.wf(),
        spec_read_block(cipher, image, block.offset) == Ok::<PackBlockView, Error>(block),
    ensures
        ({
            let at = (block.offset + PK2_FILE_ENTRY_SIZE * slot) as u64;
            let after = spec_write_entry(cipher, image, at, entry);
            &&& can_write_entry(image, at)
            &&& after.len() == image.len()
            &&& spec_read_block(cipher, after, block.offset) == Ok::<PackBlockView, Error>(
                PackBlockView { offset: block.offset, entries: block.entries.update(slot, entry) },
            )
            &&& forall|i: int|
                0 <= i < image.len() && !(block.offset <= i < block.offset + PK2_FILE_BLOCK_SIZE)
                    ==> after[i] == image[i]
        }),
{
    let off = block.offset as int;
    let at = off + 128 * slot;
    let sealed = spec_seal(cipher, spec_encode(entry));
    lemma_decode_encode(entry);
    lemma_seal_len(cipher, spec_encode(entry));
    lemma_write_then_read(image, at, sealed);
    let after = spec_write_entry(cipher, image, at as u64, entry);
    assert(after == spec_write(image, at, sealed));
    let region = image.subrange(off, off + 2560);
    let region_after = after.subrange(off, off + 2560);
    assert(region_after =~= spec_write(region, slot * 128, sealed));
    lemma_replace_entry(cipher, region, slot, entry);
    let plain = spec_unseal(cipher, region);
    let plain_after = spec_unseal(cipher, region_after);
    assert(spec_decode_entries(plain) == Ok::<Seq<PackEntryView>, Error>(block.entries));
    assert forall|i: int| 0 <= i < 20 implies spec_decode(#[trigger] entry_bytes(plain_after, i))
        == Some(block.entries.update(slot, entry)[i]) by {
        if i != slot {
            assert(entry_bytes(plain_after, i) == entry_bytes(plain, i));
            assert(spec_decode(entry_bytes(plain, i)) is Some);
            assert(block.entries[i] == spec_decode(entry_bytes(plain, i))->Some_0);
        }
    }
    assert(spec_decode_entries(plain_after)->Ok_0 =~= block.entries.update(slot, entry));
}

/// A block is read as before where its bytes are as before.
pub proof fn lemma_read_block_frame(
    cipher: Option<BlowfishView>,
    image: Seq<u8>,
    after: Seq<u8>,
    offset: u64,
)
    requires
        offset + PK2_FILE_BLOCK_SIZE <= image.len() <= after.len(),
        forall|i: int| offset <= i < offset + PK2_FILE_BLOCK_SIZE ==> after[i] == image[i],
    ensures
        spec_read_block(cipher, after, offset) == spec_read_block(cipher, image, offset),
{
    assert(after.subrange(offset as int, offset + PK2_FILE_BLOCK_SIZE) =~= image.subrange(
        offset as int,
        offset + PK2_FILE_BLOCK_SIZE,
    ));
}

/// In a coherent archive every block lies inside the image.
pub proof fn lemma_blocks_inside(archive: Pk2View, k: u64, i: int)
    requires
        archive.image.len() <= usize::MAX,
        stored(archive.cipher, archive.image, archive.chains),
        archive.chains.contains_key(k),
        0 <= i < archive.chains[k].len(),
    ensures
        archive.chains[k][i].offset + PK2_FILE_BLOCK_SIZE <= archive.image.len(),
{
    lemma_read_block_wf(archive.cipher, archive.image, archive.chains[k][i].offset);
}

/// The archive after entry `idx` of the chain `chain` is set to `entry`, in
/// the cache and in the stream.
pub open spec fn with_entry_stored(
    archive: Pk2View,
    chain: u64,
    idx: int,
    entry: PackEntryView,
) -> Pk2View {
    let before = archive.chains[chain];
    Pk2View {
        image: spec_write_entry(
            archive.cipher,
            archive.image,
            spec_file_offset_for_entry(before, idx) as u64,
            entry,
        ),
        cipher: archive.cipher,
        chains: archive.chains.insert(chain, chain_with_entry(before, idx, entry)),
    }
}

/// Setting an entry in the cache and in the stream keeps an archive
/// coherent, and the stream never refuses it.
#[verifier::spinoff_prover]
pub proof fn lemma_entry_update_coherent(
    archive: Pk2View,
    chain: u64,
    idx: int,
    entry: PackEntryView,
)
    requires
        coherent(archive),
        archive.image.len() <= usize::MAX,
        archive.chains.contains_key(chain),
        0 <= idx < chain_entries(archive.chains[chain]).len(),
        entry.wf(),
    ensures
        can_write_entry(
            archive.image,
            spec_file_offset_for_entry(archive.chains[chain], idx) as u64,
        ),
        coherent(with_entry_stored(archive, chain, idx, entry)),
        with_entry_stored(archive, chain, idx, entry).image.len() == archive.image.len(),
{
    let before = archive.chains[chain];
    let b = idx / 20;
    let s = idx % 20;
    let block = before[b];
    let after = with_entry_stored(archive, chain, idx, entry);
    assert(chain_wf(before));
    assert(block.wf());
    assert(spec_read_block(archive.cipher, archive.image, block.offset) == Ok::<
        PackBlockView,
        Error,
    >(block));
    lemma_write_entry_in_block(archive.cipher, archive.image, block, s, entry);
    lemma_chain_with_entry(before, idx, entry);
    let updated = chain_with_entry(before, idx, entry);
    assert forall|k: u64| after.chains.contains_key(k) implies chain_wf(#[trigger] after.chains[k]) by {
        if k != chain {
            assert(chain_wf(archive.chains[k]));
        }
    }
    assert forall|k: u64, i: int|
        after.chains.contains_key(k) && 0 <= i < after.chains[k].len() implies spec_read_block(
        after.cipher,
        after.image,
        (#[trigger] after.chains[k][i]).offset,
    ) == Ok::<PackBlockView, Error>(after.chains[k][i]) by {
        if k == chain && i == b {
        } else {
            let other = archive.chains[k][i];
            assert(after.chains[k][i] == other);
            assert(blocks_apart(other.offset, block.offset));
            lemma_blocks_inside(archive, k, i);
            lemma_read_block_frame(archive.cipher, archive.image, after.image, other.offset);
        }
    }
    assert forall|k1: u64, i1: int, k2: u64, i2: int|
        after.chains.contains_key(k1) && 0 <= i1 < after.chains[k1].len()
            && after.chains.contains_key(k2) && 0 <= i2 < after.chains[k2].len() && (k1 != k2
            || i1 != i2) implies blocks_apart(
        (#[trigger] after.chains[k1][i1]).offset,
        (#[trigger] after.chains[k2][i2]).offset,
    ) by {
        assert(after.chains[k1][i1].offset == archive.chains[k1][i1].offset);
        assert(after.chains[k2][i2].offset == archive.chains[k2][i2].offset);
    }
}

/// A block that is appended to the image of a coherent archive is stored
/// there, behind all blocks of the archive, which stay stored.
#[verifier::spinoff_prover]
pub proof fn lemma_append_coherent(archive: Pk2View, entries: Seq<PackEntryView>)
    requires
        coherent(archive),
        can_append_block(archive.image),
        entries.len() == 20,
        forall|i: int| 0 <= i < entries.len() ==> (#[trigger] entries[i]).wf(),
    ensures
        ({
            let offset = archive.image.len() as u64;
            let after = spec_write_block(archive.cipher, archive.image, offset, entries);
            &&& after.len() == archive.image.len() + PK2_FILE_BLOCK_SIZE
            &&& spec_read_block(archive.cipher, after, offset) == Ok::<PackBlockView, Error>(
                PackBlockView { offset, entries },
            )
            &&& stored(archive.cipher, after, archive.chains)
            &&& forall|k: u64, i: int|
                archive.chains.contains_key(k) && 0 <= i < archive.chains[k].len() ==> (
                #[trigger] archive.chains[k][i]).offset + PK2_FILE_BLOCK_SIZE <= offset
        }),
{
    let offset = archive.image.len() as u64;
    let block = PackBlockView { offset, entries };
    let after = spec_write_block(archive.cipher, archive.image, offset, entries);
    lemma_append_block_len(archive.cipher, archive.image, entries);
    lemma_read_written_block(archive.cipher, archive.image, block);
    lemma_encode_entries(entries);
    lemma_seal_len(archive.cipher, spec_encode_entries(entries));
    lemma_write_then_read(
        archive.image,
        offset as int,
        spec_seal(archive.cipher, spec_encode_entries(entries)),
    );
    assert forall|k: u64, i: int|
        archive.chains.contains_key(k) && 0 <= i < archive.chains[k].len() implies (
    #[trigger] archive.chains[k][i]).offset + PK2_FILE_BLOCK_SIZE <= offset && spec_read_block(
        archive.cipher,
        after,
        archive.chains[k][i].offset,
    ) == Ok::<PackBlockView, Error>(archive.chains[k][i]) by {
        lemma_blocks_inside(archive, k, i);
        let at = archive.chains[k][i].offset;
        assert forall|j: int| at <= j < at + PK2_FILE_BLOCK_SIZE implies after[j]
            == archive.image[j] by {
            assert(after.subrange(0, offset as int)[j] == archive.image.subrange(
                0,
                offset as int,
            )[j]);
        }
        lemma_read_block_frame(archive.cipher, archive.image, after, at);
    }
}

/// The archive in the state of a creation.
pub open spec fn archive_of(
    cipher: Option<BlowfishView>,
    chains: ChainsView,
    image: Seq<u8>,
) -> Pk2View {
    Pk2View { image, cipher, chains }
}

/// Finding a slot keeps an archive coherent, and fails only before anything
/// has changed.
#[verifier::spinoff_prover]
pub proof fn lemma_find_slot_coherent(archive: Pk2View, current: u64)
    requires
        coherent(archive),
        archive.image.len() <= usize::MAX,
        archive.chains.contains_key(current),
    ensures
        ({
            let slot = spec_find_slot(archive.cipher, archive.chains, archive.image, current);
            &&& coherent(archive_of(archive.cipher, slot.chains, slot.image))
            &&& slot.image.len() <= usize::MAX
            &&& slot.result is Err ==> slot.chains == archive.chains && slot.image
                == archive.image
        }),
{
    let cipher = archive.cipher;
    let chains = archive.chains;
    let image = archive.image;
    let slot = spec_find_slot(cipher, chains, image, current);
    let chain = chains[current];
    assert(chain_wf(chain));
    if first_index(chain_entries(chain), unused()) is None && chain.len() < PK2_MAX_CHAIN_BLOCKS
        && can_append_block(image) {
        let offset = image.len() as u64;
        let block = PackBlockView { offset, entries: empty_entries() };
        assert(block.wf());
        let appended = spec_write_block(cipher, image, offset, empty_entries());
        lemma_append_coherent(archive, empty_entries());
        let longer = chains.insert(current, chain.push(block));
        let mid = archive_of(cipher, longer, appended);
        assert(coherent(mid)) by {
            assert forall|k: u64| longer.contains_key(k) implies chain_wf(#[trigger] longer[k]) by {
                if k != current {
                    assert(chain_wf(chains[k]));
                } else {
                    assert forall|i: int| 0 <= i < longer[k].len() implies (
                    #[trigger] longer[k][i]).wf() by {
                        if i < chain.len() {
                            assert(chain[i].wf());
                        }
                    }
                }
            }
            assert forall|k: u64, i: int|
                longer.contains_key(k) && 0 <= i < longer[k].len() implies spec_read_block(
                cipher,
                appended,
                (#[trigger] longer[k][i]).offset,
            ) == Ok::<PackBlockView, Error>(longer[k][i]) by {
                if k == current && i == chain.len() {
                } else {
                    assert(longer[k][i] == chains[k][i]);
                }
            }
            assert forall|k1: u64, i1: int, k2: u64, i2: int|
                longer.contains_key(k1) && 0 <= i1 < longer[k1].len() && longer.contains_key(k2)
                    && 0 <= i2 < longer[k2].len() && (k1 != k2 || i1 != i2) implies blocks_apart(
                (#[trigger] longer[k1][i1]).offset,
                (#[trigger] longer[k2][i2]).offset,
            ) by {
                let new1 = k1 == current && i1 == chain.len();
                let new2 = k2 == current && i2 == chain.len();
                if !new1 {
                    assert(longer[k1][i1] == chains[k1][i1]);
                }
                if !new2 {
                    assert(longer[k2][i2] == chains[k2][i2]);
                }
            }
        }
        let last = chain.len() * 20 - 1;
        let linked_entry = chain_entries(chain)[last].with_next_block(offset);
        assert(chain[last / 20].wf());
        assert(chain_entries(chain)[last].wf());
        lemma_chain_with_entry(chain, last, linked_entry);
        let grown = chain_pushed_and_linked(chain, block);
        assert(chain_with_entry(chain.push(block), last, linked_entry) =~= grown);
        assert(chain_entries(grown)[last] == linked_entry) by {
            assert(grown[last / 20] == chain_with_entry(chain, last, linked_entry)[last / 20]);
        }
        assert(spec_file_offset_for_entry(grown, last) == spec_file_offset_for_entry(
            chain.push(block),
            last,
        ));
        lemma_entry_update_coherent(mid, current, last, linked_entry);
        let done = with_entry_stored(mid, current, last, linked_entry);
        assert(done.chains =~= chains.insert(current, grown));
        assert(done == archive_of(cipher, slot.chains, slot.image));
    }
}

/// Making a directory keeps an archive coherent, and fails only before
/// anything has changed.
#[verifier::spinoff_prover]
pub proof fn lemma_make_directory_coherent(archive: Pk2View, parent: u64, idx: int, name: Seq<u8>)
    requires
        coherent(archive),
        archive.image.len() <= usize::MAX,
        archive.chains.contains_key(parent),
        0 <= idx < chain_entries(archive.chains[parent]).len(),
        valid_name(name),
    ensures
        ({
            let made = spec_make_directory(
                archive.cipher,
                archive.chains,
                archive.image,
                parent,
                idx,
                name,
            );
            &&& coherent(archive_of(archive.cipher, made.chains, made.image))
            &&& made.image.len() <= usize::MAX
            &&& made.result is Err ==> made.chains == archive.chains && made.image
                == archive.image
        }),
{
    let cipher = archive.cipher;
    let chains = archive.chains;
    let image = archive.image;
    let made = spec_make_directory(cipher, chains, image, parent, idx, name);
    let chain = chains[parent];
    assert(chain_wf(chain));
    if can_append_block(image) {
        let offset = image.len() as u64;
        let fresh_entries = new_chain_entries(offset, chain[0].offset);
        assert(forall|i: int| 0 <= i < fresh_entries.len() ==> (#[trigger] fresh_entries[i]).wf());
        let block = PackBlockView { offset, entries: fresh_entries };
        assert(block.wf());
        let fresh = seq![block];
        let appended = spec_write_block(cipher, image, offset, fresh_entries);
        lemma_append_coherent(archive, fresh_entries);
        assert(!chains.contains_key(offset));
        let more = chains.insert(offset, fresh);
        let mid = archive_of(cipher, more, appended);
        assert(coherent(mid)) by {
            assert forall|k: u64| more.contains_key(k) implies chain_wf(#[trigger] more[k]) by {
                if k != offset {
                    assert(chain_wf(chains[k]));
                }
            }
            assert forall|k: u64, i: int|
                more.contains_key(k) && 0 <= i < more[k].len() implies spec_read_block(
                cipher,
                appended,
                (#[trigger] more[k][i]).offset,
            ) == Ok::<PackBlockView, Error>(more[k][i]) by {
                if k != offset {
                    assert(more[k][i] == chains[k][i]);
                }
            }
            assert forall|k1: u64, i1: int, k2: u64, i2: int|
                more.contains_key(k1) && 0 <= i1 < more[k1].len() && more.contains_key(k2) && 0
                    <= i2 < more[k2].len() && (k1 != k2 || i1 != i2) implies blocks_apart(
                (#[trigger] more[k1][i1]).offset,
                (#[trigger] more[k2][i2]).offset,
            ) by {
                if k1 != offset {
                    assert(more[k1][i1] == chains[k1][i1]);
                }
                if k2 != offset {
                    assert(more[k2][i2] == chains[k2][i2]);
                }
            }
        }
        let link = spec_link(chains, image, parent, idx, name);
        assert(link.wf());
        lemma_entry_update_coherent(mid, parent, idx, link);
        let done = with_entry_stored(mid, parent, idx, link);
        assert(done.chains =~= chains.insert(parent, chain_with_entry(chain, idx, link)).insert(
            offset,
            fresh,
        ));
        assert(done == archive_of(cipher, made.chains, made.image));
    }
}

/// Creating from a chain on keeps an archive coherent, however it ends.
#[verifier::spinoff_prover]
pub proof fn lemma_create_from_coherent(archive: Pk2View, current: u64, names: Seq<Seq<u8>>)
    requires
        coherent(archive),
        archive.image.len() <= usize::MAX,
    ensures
        ({
            let made = spec_create_from(
                archive.cipher,
                archive.chains,
                archive.image,
                current,
                names,
            );
            &&& coherent(archive_of(archive.cipher, made.chains, made.image))
            &&& made.image.len() <= usize::MAX
        }),
    decreases names.len(),
{
    let cipher = archive.cipher;
    let chains = archive.chains;
    let image = archive.image;
    assert(archive == archive_of(cipher, chains, image));
    if names.len() > 0 && chains.contains_key(current) {
        if names[0] == parent_dir_name() {
            match spec_find_child(chain_entries(chains[current]), parent_dir_name()) {
                Ok(parent) => {
                    lemma_create_from_coherent(archive, parent, names.skip(1));
                },
                Err(_) => {},
            }
        } else if spec_is_text(names[0]) && valid_name(names[0]) {
            lemma_find_slot_coherent(archive, current);
            lemma_find_slot_inv(cipher, chains, image, current);
            let slot = spec_find_slot(cipher, chains, image, current);
            if slot.result is Ok && names.len() > 1 {
                let idx = slot.result->Ok_0.1;
                let slotted = archive_of(cipher, slot.chains, slot.image);
                lemma_make_directory_coherent(slotted, current, idx, names[0]);
                let dir = spec_make_directory(
                    cipher,
                    slot.chains,
                    slot.image,
                    current,
                    idx,
                    names[0],
                );
                if dir.result is Ok {
                    lemma_create_from_coherent(
                        archive_of(cipher, dir.chains, dir.image),
                        dir.result->Ok_0.0,
                        names.skip(1),
                    );
                }
            }
        }
    }
}

/// Creating a file keeps an archive coherent, however it ends.
#[verifier::spinoff_prover]
pub proof fn lemma_create_file_coherent(archive: Pk2View, path: Seq<u8>)
    requires
        coherent(archive),
        archive.image.len() <= usize::MAX,
    ensures
        coherent(spec_create_file(archive, path).0),
        spec_create_file(archive, path).0.image.len() <= usize::MAX,
{
    let after = spec_create_file(archive, path).0;
    assert(archive == archive_of(archive.cipher, archive.chains, archive.image));
    match spec_check_root(path) {
        Err(_) => {},
        Ok(rest) => {
            let names = spec_components(rest);
            if !(names.len() == 0 || names.last() == parent_dir_name() || !spec_is_text(
                names.last(),
            ) || !valid_name(names.last()) || spec_resolve_entry(
                archive.chains,
                PK2_ROOT_BLOCK,
                names,
            ) is Ok) {
                let made = spec_create_entry_at(
                    archive.cipher,
                    archive.chains,
                    archive.image,
                    PK2_ROOT_BLOCK,
                    names,
                );
                match spec_validate_dir_path(archive.chains, PK2_ROOT_BLOCK, names) {
                    Err(_) => {},
                    Ok((reached, left)) => {
                        lemma_create_from_coherent(archive, reached, left);
                        lemma_create_from_inv(
                            archive.cipher,
                            archive.chains,
                            archive.image,
                            reached,
                            left,
                        );
                    },
                }
                match made.result {
                    Err(_) => {},
                    Ok((chain, idx)) => {
                        let before = made.chains[chain];
                        let file = PackEntryView::file(
                            names.last(),
                            0,
                            0,
                            chain_entries(before)[idx].next_block(),
                        );
                        assert(file.wf());
                        let mid = archive_of(archive.cipher, made.chains, made.image);
                        lemma_entry_update_coherent(mid, chain, idx, file);
                        assert(after == with_entry_stored(mid, chain, idx, file));
                    },
                }
            }
        },
    }
}

/// Deleting a file keeps an archive coherent, and always succeeds where the
/// file is there.
#[verifier::spinoff_prover]
pub proof fn lemma_delete_file_coherent(archive: Pk2View, path: Seq<u8>)
    requires
        coherent(archive),
        archive.image.len() <= usize::MAX,
    ensures
        coherent(spec_delete_file(archive, path).0),
        spec_open_file(archive.chains, path) is Ok ==> spec_delete_file(archive, path).1 is Ok,
{
    let after = spec_delete_file(archive, path).0;
    match spec_open_file(archive.chains, path) {
        Err(_) => {},
        Ok((chain, idx)) => {
            let before = archive.chains[chain];
            assert(archive.chains.contains_key(chain));
            let cleared = PackEntryView::Empty {
                next_block: chain_entries(before)[idx].next_block(),
            };
            lemma_first_index(chain_entries(before), named(spec_components(path.skip(1)).last()));
            lemma_entry_update_coherent(archive, chain, idx, cleared);
            assert(after == with_entry_stored(archive, chain, idx, cleared));
        },
    }
}

/// A new archive is coherent.
pub proof fn lemma_fresh_coherent(cipher: Option<BlowfishView>)
    ensures
        coherent(spec_fresh_archive(cipher)),
        spec_fresh_archive(cipher).image.len() <= usize::MAX,
{
    let fresh = spec_fresh_archive(cipher);
    lemma_fresh_archive_inv(cipher);
    lemma_fresh_header(cipher);
    assert(root_block().wf());
    lemma_read_written_block(cipher, spec_encode_header(header_for(cipher)), root_block());
    assert forall|k: u64, i: int|
        fresh.chains.contains_key(k) && 0 <= i < fresh.chains[k].len() implies (
    #[trigger] fresh.chains[k][i]) == root_block() by {}
}

/// The blocks of a chain that is read are the blocks that the image holds
/// at their offsets.
pub proof fn lemma_read_chain_stored(
    cipher: Option<BlowfishView>,
    image: Seq<u8>,
    offset: u64,
    budget: nat,
)
    requires
        spec_read_chain(cipher, image, offset, budget) is Ok,
    ensures
        ({
            let chain = spec_read_chain(cipher, image, offset, budget)->Ok_0;
            forall|i: int|
                0 <= i < chain.len() ==> spec_read_block(cipher, image, (#[trigger] chain[i]).offset)
                    == Ok::<PackBlockView, Error>(chain[i])
        }),
    decreases budget,
{
    let block = spec_read_block(cipher, image, offset)->Ok_0;
    let chain = spec_read_chain(cipher, image, offset, budget)->Ok_0;
    if block.next_block() != 0 {
        lemma_read_chain_stored(cipher, image, block.next_block(), (budget - 1) as nat);
        let rest = spec_read_chain(cipher, image, block.next_block(), (budget - 1) as nat)->Ok_0;
        assert forall|i: int| 0 <= i < chain.len() implies spec_read_block(
            cipher,
            image,
            (#[trigger] chain[i]).offset,
        ) == Ok::<PackBlockView, Error>(chain[i]) by {
            if i > 0 {
                assert(chain[i] == rest[i - 1]);
            }
        }
    }
}

/// The chains that are collected from an image are stored in it, where
/// those that were collected before are.
pub proof fn lemma_load_stored(
    cipher: Option<BlowfishView>,
    image: Seq<u8>,
    chains: ChainsView,
    pending: Seq<u64>,
    budget: nat,
)
    requires
        stored(cipher, image, chains),
        spec_load(cipher, image, chains, pending, budget) is Ok,
    ensures
        stored(cipher, image, spec_load(cipher, image, chains, pending, budget)->Ok_0),
    decreases budget,
{
    if pending.len() > 0 {
        let offset = pending.last();
        lemma_read_chain_stored(cipher, image, offset, chain_budget(image.len()));
        let chain = spec_read_chain(cipher, image, offset, chain_budget(image.len()))->Ok_0;
        let more = chains.insert(offset, chain);
        assert forall|k: u64, i: int|
            more.contains_key(k) && 0 <= i < more[k].len() implies spec_read_block(
            cipher,
            image,
            (#[trigger] more[k][i]).offset,
        ) == Ok::<PackBlockView, Error>(more[k][i]) by {
            if k != offset {
                assert(more[k][i] == chains[k][i]);
            }
        }
        lemma_load_stored(
            cipher,
            image,
            more,
            pending.drop_last() + child_links(chain_entries(chain)),
            (budget - 1) as nat,
        );
    }
}

/// An archive that was opened is sound, and the stream holds every block of
/// it as the cache has it. Where its blocks share no bytes, it is coherent.
pub proof fn lemma_open_stored(image: Seq<u8>, key: Seq<u8>)
    requires
        image.len() <= usize::MAX,
        spec_open(image, key) is Ok,
    ensures
        archive_inv(spec_open(image, key)->Ok_0),
        stored(
            spec_open(image, key)->Ok_0.cipher,
            spec_open(image, key)->Ok_0.image,
            spec_open(image, key)->Ok_0.chains,
        ),
        apart(spec_open(image, key)->Ok_0.chains) ==> coherent(spec_open(image, key)->Ok_0),
{
    let opened = spec_open(image, key)->Ok_0;
    lemma_open_inv(image, key);
    let empty = Map::<u64, Seq<PackBlockView>>::empty();
    lemma_load_stored(opened.cipher, image, empty, seq![PK2_ROOT_BLOCK], image.len());
}

} // verus!
