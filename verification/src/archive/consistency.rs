//! What holds of an archive across its operations: an archive that was
//! created or opened is sound, and a file that was created is found by the
//! path that created it.

use vstd::prelude::*;
use crate::archive::{
    Pk2View, is_file_at, spec_create_entry_at, spec_create_file, spec_create_from,
    spec_delete_file, spec_entry, spec_find_slot, spec_fresh_archive, spec_make_directory,
    spec_open, spec_open_file, lemma_entry_write_keeps_len,
};
use crate::blowfish::BlowfishView;
use crate::constants::{PK2_FILE_BLOCK_SIZE, PK2_MAX_CHAIN_BLOCKS, PK2_ROOT_BLOCK};
use crate::error::Error;
use crate::io::{
    can_append_block, can_write_entry, new_chain_entries, spec_append_chain, spec_read_block,
    spec_seal, spec_unseal, spec_write_block, lemma_seal_len, lemma_write_then_read,
};
use crate::path::{spec_check_root, spec_components, spec_is_text, lemma_components_plain};
use crate::raw::block_chain::{
    PackBlockView, chain_entries, chain_linked, chain_pushed_and_linked, chain_wf,
    chain_with_entry,
    empty_entries, entry_bytes, first_index, is_first, named, spec_decode_entries,
    spec_encode_entries, spec_file_offset_for_entry, spec_find_child, unused,
    lemma_chain_with_entry, lemma_encode_entries, lemma_first_index, lemma_first_index_none,
    lemma_first_index_some,
};
use crate::raw::block_manager::{
    ChainsView, chain_budget, chains_wf, child_links, spec_load, spec_read_chain, spec_resolve_chain, spec_resolve_entry, spec_validate_dir_path,
};
use crate::raw::entry::{
    PackEntryView, current_dir_name, parent_dir_name, valid_name, lemma_decode_wf,
};


verus! {

/// Whether the entries `b` are the entries `a` after names were given to
/// unused entries and unused entries were added, all new names being `n`:
/// every entry of `a` that has a name keeps it, and stays a directory with
/// the same chain or a file.
pub open spec fn grows(a: Seq<PackEntryView>, b: Seq<PackEntryView>, n: Seq<u8>) -> bool {
    &&& a.len() <= b.len()
    &&& forall|i: int|
        0 <= i < a.len() ==> if (#[trigger] a[i]) is Empty {
            b[i] is Empty || b[i].name() == Some(n)
        } else {
            same_target(a[i], b[i])
        }
    &&& forall|i: int|
        a.len() <= i < b.len() ==> (#[trigger] b[i]) is Empty || b[i].name() == Some(n)
}

/// Whether two entries have the same name and lead to the same place: both
/// are files, or both are directories with one chain.
pub open spec fn same_target(a: PackEntryView, b: PackEntryView) -> bool {
    &&& a.name() == b.name()
    &&& a is File <==> b is File
    &&& a is Directory <==> b is Directory
    &&& a is Directory ==> a->Directory_0.pos_children == b->Directory_0.pos_children
}

/// Whether no entry has the name `n`.
pub open spec fn absent(entries: Seq<PackEntryView>, n: Seq<u8>) -> bool {
    forall|i: int| 0 <= i < entries.len() ==> (#[trigger] entries[i]).name() != Some(n)
}

/// A name is absent where the lookup finds none, and the other way round.
pub proof fn lemma_absent(entries: Seq<PackEntryView>, n: Seq<u8>)
    ensures
        absent(entries, n) <==> first_index(entries, named(n)) is None,
        absent(entries, n) <==> spec_find_child(entries, n) == Err::<u64, Error>(Error::NotFound),
{
    lemma_first_index(entries, named(n));
    if absent(entries, n) {
        lemma_first_index_none(entries, named(n));
    } else {
        let i = choose|i: int| 0 <= i < entries.len() && (#[trigger] entries[i]).name() == Some(n);
        assert(named(n)(entries[i]));
    }
}

/// Names other than the new one are looked up as before.
pub proof fn lemma_grows_find(a: Seq<PackEntryView>, b: Seq<PackEntryView>, n: Seq<u8>, q: Seq<u8>)
    requires
        grows(a, b, n),
        q != n,
    ensures
        spec_find_child(b, q) == spec_find_child(a, q),
        first_index(b, named(q)) == first_index(a, named(q)),
{
    lemma_first_index(a, named(q));
    match first_index(a, named(q)) {
        Some(i) => {
            assert(named(q)(a[i]));
            assert(same_target(a[i], b[i]));
            assert forall|j: int| 0 <= j < i implies !named(q)(#[trigger] b[j]) by {
                assert(!named(q)(a[j]));
            }
            assert(is_first(b, named(q), i));
            lemma_first_index_some(b, named(q), i);
        },
        None => {
            assert forall|j: int| 0 <= j < b.len() implies !named(q)(#[trigger] b[j]) by {
                if j < a.len() {
                    assert(!named(q)(a[j]));
                }
            }
            lemma_first_index_none(b, named(q));
        },
    }
}

/// Entries grow to themselves.
pub proof fn lemma_grows_refl(a: Seq<PackEntryView>, n: Seq<u8>)
    ensures
        grows(a, a, n),
{
}

/// What grows twice has grown.
pub proof fn lemma_grows_trans(
    a: Seq<PackEntryView>,
    b: Seq<PackEntryView>,
    c: Seq<PackEntryView>,
    n: Seq<u8>,
)
    requires
        grows(a, b, n),
        grows(b, c, n),
    ensures
        grows(a, c, n),
{
    assert forall|i: int| 0 <= i < a.len() implies if (#[trigger] a[i]) is Empty {
        c[i] is Empty || c[i].name() == Some(n)
    } else {
        same_target(a[i], c[i])
    } by {
        if a[i] is Empty {
            if b[i] is Empty {
            } else {
                assert(same_target(b[i], c[i]));
            }
        } else {
            assert(same_target(a[i], b[i]));
            assert(!(b[i] is Empty));
            assert(same_target(b[i], c[i]));
        }
    }
    assert forall|i: int| a.len() <= i < c.len() implies (#[trigger] c[i]) is Empty || c[i].name()
        == Some(n) by {
        if i < b.len() {
            if b[i] is Empty {
            } else {
                assert(same_target(b[i], c[i]));
            }
        }
    }
}

/// Giving an unused entry the name `n` is growth.
pub proof fn lemma_grows_update(a: Seq<PackEntryView>, idx: int, entry: PackEntryView, n: Seq<u8>)
    requires
        0 <= idx < a.len(),
        a[idx] is Empty,
        entry.name() == Some(n),
    ensures
        grows(a, a.update(idx, entry), n),
{
}

/// A name that was absent is found where an entry is given it.
pub proof fn lemma_absent_then_found(
    a: Seq<PackEntryView>,
    idx: int,
    entry: PackEntryView,
    n: Seq<u8>,
)
    requires
        0 <= idx < a.len(),
        absent(a, n),
        entry.name() == Some(n),
    ensures
        first_index(a.update(idx, entry), named(n)) == Some(idx),
{
    let b = a.update(idx, entry);
    assert(named(n)(b[idx]));
    assert forall|j: int| 0 <= j < idx implies !named(n)(#[trigger] b[j]) by {
        assert(a[j].name() != Some(n));
    }
    lemma_first_index_some(b, named(n), idx);
}

/// A chain that is given one more block has the names that it had; the new
/// entries are unused.
pub proof fn lemma_pushed_and_linked(blocks: Seq<PackBlockView>, block: PackBlockView, n: Seq<u8>)
    requires
        chain_wf(blocks),
        blocks.len() < PK2_MAX_CHAIN_BLOCKS,
        block.wf(),
        block.entries == empty_entries(),
    ensures
        chain_wf(chain_pushed_and_linked(blocks, block)),
        chain_pushed_and_linked(blocks, block).len() == blocks.len() + 1,
        chain_pushed_and_linked(blocks, block)[0].offset == blocks[0].offset,
        grows(chain_entries(blocks), chain_entries(chain_pushed_and_linked(blocks, block)), n),
        chain_entries(chain_pushed_and_linked(blocks, block))[blocks.len() as int * 20] is Empty,
        forall|q: Seq<u8>|
            absent(chain_entries(blocks), q) ==> absent(
                chain_entries(chain_pushed_and_linked(blocks, block)),
                q,
            ),
{
    let last = blocks.len() * 20 - 1;
    let old_entries = chain_entries(blocks);
    let linked_entry = old_entries[last].with_next_block(block.offset);
    let linked = chain_with_entry(blocks, last, linked_entry);
    assert(blocks[last / 20].wf());
    assert(old_entries[last].wf());
    lemma_chain_with_entry(blocks, last, linked_entry);
    let grown = linked.push(block);
    assert(grown == chain_pushed_and_linked(blocks, block));
    assert forall|i: int| 0 <= i < grown.len() implies (#[trigger] grown[i]).wf() by {
        if i < linked.len() {
            assert(linked[i].wf());
        }
    }
    let new_entries = chain_entries(grown);
    assert forall|i: int| 0 <= i < old_entries.len() implies new_entries[i] == chain_entries(
        linked,
    )[i] by {
        assert(i / 20 < blocks.len());
    }
    assert forall|i: int| old_entries.len() <= i < new_entries.len() implies (
    #[trigger] new_entries[i]) is Empty by {
        assert(i / 20 == blocks.len());
    }
    assert forall|i: int| 0 <= i < old_entries.len() implies if (#[trigger] old_entries[i])
        is Empty {
        new_entries[i] is Empty || new_entries[i].name() == Some(n)
    } else {
        same_target(old_entries[i], new_entries[i])
    } by {
        assert(new_entries[i] == old_entries.update(last, linked_entry)[i]);
    }
    assert forall|q: Seq<u8>| absent(old_entries, q) implies absent(new_entries, q) by {
        assert forall|i: int| 0 <= i < new_entries.len() implies (#[trigger] new_entries[i]).name()
            != Some(q) by {
            if i < old_entries.len() {
                assert(new_entries[i] == old_entries.update(last, linked_entry)[i]);
                assert(old_entries[i].name() != Some(q));
            }
        }
    }
}

/// Whether every chain lies under an offset inside the image.
pub open spec fn keys_inside(chains: ChainsView, image: Seq<u8>) -> bool {
    forall|k: u64| chains.contains_key(k) ==> k < image.len()
}

/// Whether an archive is sound: its chains are well formed and lie under
/// offsets inside its image.
pub open spec fn archive_inv(archive: Pk2View) -> bool {
    chains_wf(archive.chains) && keys_inside(archive.chains, archive.image)
}

/// Whether none of the names is `.` or `..`.
pub open spec fn plain_names(names: Seq<Seq<u8>>) -> bool {
    forall|i: int|
        0 <= i < names.len() ==> (#[trigger] names[i]) != parent_dir_name() && names[i]
            != current_dir_name()
}

/// Whether none of the names is `..`.
pub open spec fn no_parent_names(names: Seq<Seq<u8>>) -> bool {
    forall|i: int| 0 <= i < names.len() ==> (#[trigger] names[i]) != parent_dir_name()
}

/// A block that is appended makes the image 2560 bytes longer.
pub proof fn lemma_append_block_len(
    cipher: Option<BlowfishView>,
    image: Seq<u8>,
    entries: Seq<PackEntryView>,
)
    requires
        entries.len() == 20,
        forall|i: int| 0 <= i < entries.len() ==> (#[trigger] entries[i]).wf(),
        can_append_block(image),
    ensures
        spec_write_block(cipher, image, image.len() as u64, entries).len() == image.len()
            + PK2_FILE_BLOCK_SIZE,
{
    lemma_encode_entries(entries);
    lemma_seal_len(cipher, spec_encode_entries(entries));
    lemma_write_then_read(
        image,
        image.len() as int,
        spec_seal(cipher, spec_encode_entries(entries)),
    );
}

/// What finding a slot does to an archive when it succeeds: the chain keeps
/// its names, the slot is unused, and nothing else changes.
#[verifier::spinoff_prover]
pub proof fn lemma_find_slot(
    cipher: Option<BlowfishView>,
    chains: ChainsView,
    image: Seq<u8>,
    current: u64,
)
    requires
        chains_wf(chains),
        keys_inside(chains, image),
        chains.contains_key(current),
        spec_find_slot(cipher, chains, image, current).result is Ok,
    ensures
        ({
            let slot = spec_find_slot(cipher, chains, image, current);
            let idx = slot.result->Ok_0.1;
            let before = chain_entries(chains[current]);
            let after = chain_entries(slot.chains[current]);
            &&& slot.result->Ok_0.0 == current
            &&& chains_wf(slot.chains)
            &&& keys_inside(slot.chains, slot.image)
            &&& slot.image.len() >= image.len()
            &&& forall|k: u64| slot.chains.contains_key(k) <==> chains.contains_key(k)
            &&& forall|k: u64| k != current ==> slot.chains[k] == chains[k]
            &&& slot.chains[current][0].offset == chains[current][0].offset
            &&& 0 <= idx < after.len()
            &&& after[idx] is Empty
            &&& forall|n: Seq<u8>| grows(before, after, n)
            &&& forall|q: Seq<u8>| absent(before, q) ==> absent(after, q)
        }),
{
    let slot = spec_find_slot(cipher, chains, image, current);
    let chain = chains[current];
    let before = chain_entries(chain);
    assert(chain_wf(chain));
    lemma_first_index(before, unused());
    match first_index(before, unused()) {
        Some(idx) => {
            assert(unused()(before[idx]));
            assert forall|n: Seq<u8>| grows(before, before, n) by {
                lemma_grows_refl(before, n);
            }
        },
        None => {
            let offset = image.len() as u64;
            let block = PackBlockView { offset, entries: empty_entries() };
            assert(block.wf());
            let stored = spec_write_block(cipher, image, offset, empty_entries());
            let grown = chain_pushed_and_linked(chain, block);
            let last = chain.len() * 20 - 1;
            let at = spec_file_offset_for_entry(grown, last) as u64;
            lemma_append_block_len(cipher, image, empty_entries());
            lemma_pushed_and_linked(chain, block, Seq::empty());
            assert(grown[last / 20].wf());
            assert(chain_entries(grown)[last].wf());
            lemma_entry_write_keeps_len(cipher, stored, at, chain_entries(grown)[last]);
            assert(slot.chains == chains.insert(current, grown));
            assert forall|k: u64| slot.chains.contains_key(k) implies chain_wf(
                #[trigger] slot.chains[k],
            ) by {
                if k != current {
                    assert(chain_wf(chains[k]));
                }
            }
            assert forall|n: Seq<u8>| grows(before, chain_entries(grown), n) by {
                lemma_pushed_and_linked(chain, block, n);
            }
        },
    }
}

/// The directory that is made in a slot, and its chain.
pub open spec fn spec_link(
    chains: ChainsView,
    image: Seq<u8>,
    parent: u64,
    idx: int,
    name: Seq<u8>,
) -> PackEntryView {
    PackEntryView::directory(
        name,
        image.len() as u64,
        chain_entries(chains[parent])[idx].next_block(),
    )
}

/// What making a directory does to an archive when it succeeds. The new
/// chain lies at the end of the image as it was, under an offset that no
/// chain had; its first entry is `.` and names the chain itself, its second
/// entry is `..` and names the first block of the chain of the parent. The
/// slot of the parent names the new chain, and nothing else changes.
#[verifier::spinoff_prover]
pub proof fn lemma_make_directory(
    cipher: Option<BlowfishView>,
    chains: ChainsView,
    image: Seq<u8>,
    parent: u64,
    idx: int,
    name: Seq<u8>,
)
    requires
        chains_wf(chains),
        keys_inside(chains, image),
        chains.contains_key(parent),
        0 <= idx < chain_entries(chains[parent]).len(),
        valid_name(name),
        spec_make_directory(cipher, chains, image, parent, idx, name).result is Ok,
    ensures
        ({
            let made = spec_make_directory(cipher, chains, image, parent, idx, name);
            let child = made.result->Ok_0.0;
            let link = spec_link(chains, image, parent, idx, name);
            &&& child == image.len()
            &&& !chains.contains_key(child)
            &&& chains_wf(made.chains)
            &&& keys_inside(made.chains, made.image)
            &&& made.image.len() >= image.len()
            &&& made.chains.contains_key(child)
            &&& made.chains[child] == seq![
                PackBlockView {
                    offset: child,
                    entries: new_chain_entries(child, chains[parent][0].offset),
                },
            ]
            &&& chain_entries(made.chains[child])[0] == PackEntryView::directory(
                current_dir_name(),
                child,
                0,
            )
            &&& chain_entries(made.chains[child])[1] == PackEntryView::directory(
                parent_dir_name(),
                chains[parent][0].offset,
                0,
            )
            &&& forall|i: int|
                2 <= i < chain_entries(made.chains[child]).len() ==> (#[trigger] chain_entries(
                    made.chains[child],
                )[i]) is Empty
            &&& chain_entries(made.chains[child]).len() == 20
            &&& forall|k: u64| chains.contains_key(k) ==> made.chains.contains_key(k)
            &&& forall|k: u64| k != parent && k != child ==> made.chains[k] == chains[k]
            &&& chain_entries(made.chains[parent]) == chain_entries(chains[parent]).update(
                idx,
                link,
            )
            &&& made.chains[parent][0].offset == chains[parent][0].offset
        }),
{
    let made = spec_make_directory(cipher, chains, image, parent, idx, name);
    let chain = chains[parent];
    let offset = image.len() as u64;
    let link = spec_link(chains, image, parent, idx, name);
    let stored = spec_append_chain(cipher, image, chain[0].offset);
    let at = spec_file_offset_for_entry(chain, idx) as u64;
    let fresh_entries = new_chain_entries(offset, chain[0].offset);
    let fresh = seq![PackBlockView { offset, entries: fresh_entries }];
    assert(chain_wf(chain));
    assert(link.wf());
    assert(forall|i: int| 0 <= i < fresh_entries.len() ==> (#[trigger] fresh_entries[i]).wf());
    lemma_append_block_len(cipher, image, fresh_entries);
    lemma_entry_write_keeps_len(cipher, stored, at, link);
    lemma_chain_with_entry(chain, idx, link);
    assert(fresh[0].wf());
    assert(chain_wf(fresh));
    assert(chain_entries(fresh) =~= fresh_entries);
    let linked = chains.insert(parent, chain_with_entry(chain, idx, link));
    assert(made.chains == linked.insert(offset, fresh));
    assert forall|k: u64| made.chains.contains_key(k) implies chain_wf(#[trigger] made.chains[k]) by {
        if k != offset && k != parent {
            assert(chain_wf(chains[k]));
        }
    }
}

/// Whether the chain under `k` starts as the chain of a directory does: its
/// first entry is the directory `.` and names `k`, its second entry is the
/// directory `..` and names the first block of a chain of the archive.
pub open spec fn names_parent(chains: ChainsView, k: u64) -> bool {
    let entries = chain_entries(chains[k]);
    &&& entries[0] matches PackEntryView::Directory(own) && own.name == current_dir_name()
        && own.pos_children == k
    &&& entries[1] matches PackEntryView::Directory(up) && up.name == parent_dir_name()
        && exists|p: u64| #[trigger]
        chains.contains_key(p) && up.pos_children == chains[p][0].offset
}

/// What creating from a chain on does to an archive when it succeeds, for
/// names without `..` the first of which the chain does not hold: the names
/// but the last lead from the chain to the chain of the slot, the slot is
/// unused, and the last name is absent from its chain. Of the chains that
/// were there, only the one at the start changes: it keeps its names and
/// gains the first of the new ones.
#[verifier::spinoff_prover]
pub proof fn lemma_create_from(
    cipher: Option<BlowfishView>,
    chains: ChainsView,
    image: Seq<u8>,
    current: u64,
    names: Seq<Seq<u8>>,
)
    requires
        chains_wf(chains),
        keys_inside(chains, image),
        chains.contains_key(current),
        names.len() >= 1,
        plain_names(names),
        absent(chain_entries(chains[current]), names[0]),
        spec_create_from(cipher, chains, image, current, names).result is Ok,
    ensures
        ({
            let made = spec_create_from(cipher, chains, image, current, names);
            let c = made.result->Ok_0.0;
            let idx = made.result->Ok_0.1;
            &&& chains_wf(made.chains)
            &&& keys_inside(made.chains, made.image)
            &&& made.image.len() >= image.len()
            &&& forall|k: u64| chains.contains_key(k) ==> made.chains.contains_key(k)
            &&& forall|k: u64|
                chains.contains_key(k) && k != current ==> made.chains[k] == chains[k]
            &&& grows(
                chain_entries(chains[current]),
                chain_entries(made.chains[current]),
                names[0],
            )
            &&& made.chains[current][0].offset == chains[current][0].offset
            &&& forall|k: u64|
                made.chains.contains_key(k) && !chains.contains_key(k) ==> names_parent(
                    made.chains,
                    k,
                )
            &&& spec_resolve_chain(made.chains, current, names.drop_last()) == Ok::<u64, Error>(c)
            &&& made.chains.contains_key(c)
            &&& 0 <= idx < chain_entries(made.chains[c]).len()
            &&& chain_entries(made.chains[c])[idx] is Empty
            &&& absent(chain_entries(made.chains[c]), names.last())
            &&& if names.len() == 1 {
                c == current
            } else {
                c >= image.len()
            }
        }),
    decreases names.len(),
{
    let made = spec_create_from(cipher, chains, image, current, names);
    let slot = spec_find_slot(cipher, chains, image, current);
    let before = chain_entries(chains[current]);
    assert(names[0] != parent_dir_name());
    assert(valid_name(names[0]));
    assert(slot.result is Ok);
    lemma_find_slot(cipher, chains, image, current);
    let idx = slot.result->Ok_0.1;
    let slotted = chain_entries(slot.chains[current]);
    assert(grows(before, slotted, names[0]));
    assert(absent(slotted, names[0]));
    if names.len() == 1 {
        assert(made == slot);
        assert(names.drop_last() =~= Seq::<Seq<u8>>::empty());
        assert(names.last() == names[0]);
    } else {
        let dir = spec_make_directory(cipher, slot.chains, slot.image, current, idx, names[0]);
        assert(dir.result is Ok);
        lemma_make_directory(cipher, slot.chains, slot.image, current, idx, names[0]);
        let child = dir.result->Ok_0.0;
        let link = spec_link(slot.chains, slot.image, current, idx, names[0]);
        let rest = names.skip(1);
        assert(made == spec_create_from(cipher, dir.chains, dir.image, child, rest));
        let fresh = chain_entries(dir.chains[child]);
        assert(plain_names(rest)) by {
            assert forall|i: int| 0 <= i < rest.len() implies (#[trigger] rest[i])
                != parent_dir_name() && rest[i] != current_dir_name() by {
                assert(rest[i] == names[i + 1]);
            }
        }
        assert(rest[0] == names[1]);
        assert(absent(fresh, rest[0])) by {
            assert forall|i: int| 0 <= i < fresh.len() implies (#[trigger] fresh[i]).name()
                != Some(rest[0]) by {
                if i >= 2 {
                    assert(fresh[i] is Empty);
                }
            }
        }
        lemma_create_from(cipher, dir.chains, dir.image, child, rest);
        let c = made.result->Ok_0.0;
        // the chain at the start is as the directory left it
        assert(made.chains[current] == dir.chains[current]);
        let linked = chain_entries(dir.chains[current]);
        assert(linked == slotted.update(idx, link));
        lemma_grows_update(slotted, idx, link, names[0]);
        lemma_grows_trans(before, slotted, linked, names[0]);
        // the first name leads to the new chain
        lemma_absent_then_found(slotted, idx, link, names[0]);
        assert(spec_find_child(linked, names[0]) == Ok::<u64, Error>(child));
        let front = names.drop_last();
        assert(front[0] == names[0]);
        assert(front.skip(1) =~= rest.drop_last());
        assert(spec_resolve_chain(made.chains, current, front) == spec_resolve_chain(
            made.chains,
            child,
            rest.drop_last(),
        ));
        assert(rest.last() == names.last());
        assert forall|k: u64| chains.contains_key(k) && k != current implies made.chains[k]
            == chains[k] by {
            assert(k < image.len());
            assert(slot.chains[k] == chains[k]);
            assert(dir.chains[k] == slot.chains[k]);
        }
        assert forall|k: u64|
            made.chains.contains_key(k) && !chains.contains_key(k) implies names_parent(
            made.chains,
            k,
        ) by {
            if k == child {
                let grown = chain_entries(made.chains[child]);
                assert(grows(fresh, grown, rest[0]));
                assert(same_target(fresh[0], grown[0]));
                assert(same_target(fresh[1], grown[1]));
                assert(made.chains.contains_key(current));
            } else {
                assert(!dir.chains.contains_key(k));
            }
        }
    }
}

/// What following a path through the directories that exist comes to: the
/// names that are left are the end of the path, the names before them lead
/// to the chain reached, and the first name that is left is absent there.
pub proof fn lemma_validate(chains: ChainsView, start: u64, names: Seq<Seq<u8>>)
    requires
        spec_validate_dir_path(chains, start, names) is Ok,
    ensures
        ({
            let reached = spec_validate_dir_path(chains, start, names)->Ok_0.0;
            let rest = spec_validate_dir_path(chains, start, names)->Ok_0.1;
            let k = names.len() - rest.len();
            &&& 0 <= k <= names.len()
            &&& rest == names.subrange(k, names.len() as int)
            &&& spec_resolve_chain(chains, start, names.subrange(0, k)) == Ok::<u64, Error>(
                reached,
            )
            &&& rest.len() > 0 ==> chains.contains_key(reached) && absent(
                chain_entries(chains[reached]),
                rest[0],
            )
        }),
    decreases names.len(),
{
    if names.len() == 0 {
        assert(names.subrange(0, 0) =~= names);
    } else {
        let entries = chain_entries(chains[start]);
        lemma_absent(entries, names[0]);
        match spec_find_child(entries, names[0]) {
            Ok(next) => {
                let tail = names.skip(1);
                lemma_validate(chains, next, tail);
                let rest = spec_validate_dir_path(chains, next, tail)->Ok_0.1;
                let k = tail.len() - rest.len();
                assert(tail.subrange(k, tail.len() as int) =~= names.subrange(
                    k + 1,
                    names.len() as int,
                ));
                let front = names.subrange(0, k + 1);
                assert(front[0] == names[0]);
                assert(front.skip(1) =~= tail.subrange(0, k));
            },
            Err(_) => {
                assert(names.subrange(0, names.len() as int) =~= names);
                assert(names.subrange(0, 0) =~= Seq::<Seq<u8>>::empty());
            },
        }
    }
}

/// Names in a row are followed one row after the other.
pub proof fn lemma_resolve_concat(m: ChainsView, start: u64, a: Seq<Seq<u8>>, b: Seq<Seq<u8>>)
    ensures
        spec_resolve_chain(m, start, a + b) == (match spec_resolve_chain(m, start, a) {
            Ok(mid) => spec_resolve_chain(m, mid, b),
            Err(e) => Err(e),
        }),
    decreases a.len(),
{
    if a.len() == 0 {
        assert(a + b =~= b);
    } else {
        let whole = a + b;
        assert(whole[0] == a[0]);
        assert(whole.skip(1) =~= a.skip(1) + b);
        if m.contains_key(start) {
            match spec_find_child(chain_entries(m[start]), a[0]) {
                Ok(next) => {
                    lemma_resolve_concat(m, next, a.skip(1), b);
                },
                Err(_) => {},
            }
        }
    }
}

/// Names lead where they led before, where the only chain that changed has
/// grown by a name that it did not hold.
pub proof fn lemma_resolve_stable(
    before: ChainsView,
    after: ChainsView,
    changed: u64,
    n: Seq<u8>,
    start: u64,
    names: Seq<Seq<u8>>,
)
    requires
        spec_resolve_chain(before, start, names) is Ok,
        forall|k: u64| before.contains_key(k) ==> after.contains_key(k),
        forall|k: u64| before.contains_key(k) && k != changed ==> after[k] == before[k],
        before.contains_key(changed) ==> grows(
            chain_entries(before[changed]),
            chain_entries(after[changed]),
            n,
        ) && absent(chain_entries(before[changed]), n),
    ensures
        spec_resolve_chain(after, start, names) == spec_resolve_chain(before, start, names),
    decreases names.len(),
{
    if names.len() > 0 {
        let entries = chain_entries(before[start]);
        match spec_find_child(entries, names[0]) {
            Ok(next) => {
                if start == changed {
                    lemma_absent(entries, n);
                    lemma_grows_find(entries, chain_entries(after[changed]), n, names[0]);
                }
                lemma_resolve_stable(before, after, changed, n, next, names.skip(1));
            },
            Err(_) => {},
        }
    }
}

/// A new archive is sound.
pub proof fn lemma_fresh_archive_inv(cipher: Option<BlowfishView>)
    ensures
        archive_inv(spec_fresh_archive(cipher)),
{
    crate::archive::lemma_fresh_header(cipher);
    crate::archive::lemma_fresh_archive_loads(cipher);
    let fresh = spec_fresh_archive(cipher);
    assert forall|k: u64| fresh.chains.contains_key(k) implies chain_wf(#[trigger] fresh.chains[k]) by {
        assert(k == PK2_ROOT_BLOCK);
    }
}

/// Create, then resolve: a file that was created in a sound archive, by a
/// path without `..`, is the file that the same path opens afterwards. Its
/// entry has the last name of the path, no payload, and lies where the
/// creation said. The archive is sound afterwards, and every chain that the
/// creation added starts with `.`, which names the chain, and `..`, which
/// names the first block of a chain of the archive.
#[verifier::spinoff_prover]
pub proof fn lemma_create_then_resolve(archive: Pk2View, path: Seq<u8>)
    requires
        archive_inv(archive),
        no_parent_names(spec_components(path.skip(1))),
        spec_create_file(archive, path).1 is Ok,
    ensures
        ({
            let after = spec_create_file(archive, path).0;
            let place = spec_create_file(archive, path).1->Ok_0;
            let name = spec_components(path.skip(1)).last();
            &&& spec_open_file(after.chains, path) == Ok::<(u64, int), Error>(place)
            &&& is_file_at(after.chains, place.0, place.1)
            &&& spec_entry(after.chains, place.0, place.1)->Some_0->File_0.name == name
            &&& spec_entry(after.chains, place.0, place.1)->Some_0->File_0.size == 0
            &&& spec_entry(after.chains, place.0, place.1)->Some_0->File_0.position == 0
            &&& archive_inv(after)
            &&& forall|k: u64|
                after.chains.contains_key(k) && !archive.chains.contains_key(k) ==> names_parent(
                    after.chains,
                    k,
                )
        }),
{
    let chains = archive.chains;
    let image = archive.image;
    let cipher = archive.cipher;
    assert(spec_check_root(path) == Ok::<Seq<u8>, Error>(path.skip(1)));
    let names = spec_components(path.skip(1));
    lemma_components_plain(path.skip(1));
    assert(plain_names(names));
    let last = names.last();
    let made = spec_create_entry_at(cipher, chains, image, PK2_ROOT_BLOCK, names);
    assert(made.result is Ok);
    assert(spec_validate_dir_path(chains, PK2_ROOT_BLOCK, names) is Ok);
    let reached = spec_validate_dir_path(chains, PK2_ROOT_BLOCK, names)->Ok_0.0;
    let rest = spec_validate_dir_path(chains, PK2_ROOT_BLOCK, names)->Ok_0.1;
    assert(made == spec_create_from(cipher, chains, image, reached, rest));
    assert(rest.len() >= 1);
    lemma_validate(chains, PK2_ROOT_BLOCK, names);
    let k = names.len() - rest.len();
    let prefix = names.subrange(0, k);
    assert(plain_names(rest)) by {
        assert forall|i: int| 0 <= i < rest.len() implies (#[trigger] rest[i])
            != parent_dir_name() && rest[i] != current_dir_name() by {
            assert(rest[i] == names[k + i]);
        }
    }
    lemma_create_from(cipher, chains, image, reached, rest);
    let c = made.result->Ok_0.0;
    let idx = made.result->Ok_0.1;
    let target = made.chains[c];
    let file = PackEntryView::file(last, 0, 0, chain_entries(target)[idx].next_block());
    let at = spec_file_offset_for_entry(target, idx) as u64;
    let after = spec_create_file(archive, path).0;
    assert(after.chains == made.chains.insert(c, chain_with_entry(target, idx, file)));
    assert(chain_wf(target));
    assert(file.wf());
    lemma_chain_with_entry(target, idx, file);
    lemma_entry_write_keeps_len(cipher, made.image, at, file);
    assert(rest.last() == last);
    // the last name is found in its slot
    lemma_absent_then_found(chain_entries(target), idx, file, last);
    // the names before it lead to the chain of the slot
    lemma_resolve_stable(chains, made.chains, reached, rest[0], PK2_ROOT_BLOCK, prefix);
    lemma_resolve_concat(made.chains, PK2_ROOT_BLOCK, prefix, rest.drop_last());
    assert(prefix + rest.drop_last() =~= names.drop_last());
    lemma_grows_update(chain_entries(target), idx, file, last);
    lemma_resolve_stable(made.chains, after.chains, c, last, PK2_ROOT_BLOCK, names.drop_last());
    assert(spec_resolve_chain(after.chains, PK2_ROOT_BLOCK, names.drop_last()) == Ok::<u64, Error>(
        c,
    ));
    assert(first_index(chain_entries(after.chains[c]), named(last)) == Some(idx));
    assert(spec_resolve_entry(after.chains, PK2_ROOT_BLOCK, names) == Ok::<(u64, int), Error>(
        (c, idx),
    ));
    assert(chain_entries(after.chains[c])[idx] == file);
    assert forall|key: u64| after.chains.contains_key(key) implies chain_wf(
        #[trigger] after.chains[key],
    ) by {
        if key != c {
            assert(chain_wf(made.chains[key]));
        }
    }
    assert forall|key: u64|
        after.chains.contains_key(key) && !chains.contains_key(key) implies names_parent(
        after.chains,
        key,
    ) by {
        assert(names_parent(made.chains, key));
        let up = chain_entries(made.chains[key])[1]->Directory_0;
        let p = choose|p: u64| #[trigger]
            made.chains.contains_key(p) && up.pos_children == made.chains[p][0].offset;
        assert(after.chains.contains_key(p));
        assert(after.chains[p][0].offset == made.chains[p][0].offset);
        if key == c {
            assert(chain_entries(after.chains[c]) == chain_entries(target).update(idx, file));
            assert(idx != 0 && idx != 1);
        }
    }
}

/// A block that is read is well formed and lies inside the image.
pub proof fn lemma_read_block_wf(cipher: Option<BlowfishView>, image: Seq<u8>, offset: u64)
    requires
        image.len() <= usize::MAX,
        spec_read_block(cipher, image, offset) is Ok,
    ensures
        spec_read_block(cipher, image, offset)->Ok_0.wf(),
        spec_read_block(cipher, image, offset)->Ok_0.offset == offset,
        offset + PK2_FILE_BLOCK_SIZE <= image.len(),
{
    let stored = image.subrange(offset as int, offset + PK2_FILE_BLOCK_SIZE);
    let plain = spec_unseal(cipher, stored);
    lemma_seal_len(cipher, stored);
    let entries = spec_decode_entries(plain)->Ok_0;
    assert forall|i: int| 0 <= i < entries.len() implies (#[trigger] entries[i]).wf() by {
        lemma_decode_wf(entry_bytes(plain, i));
    }
}

/// A chain that is read is well formed, starts where it was looked for, and
/// lies inside the image.
pub proof fn lemma_read_chain_wf(
    cipher: Option<BlowfishView>,
    image: Seq<u8>,
    offset: u64,
    budget: nat,
)
    requires
        image.len() <= usize::MAX,
        budget <= PK2_MAX_CHAIN_BLOCKS,
        spec_read_chain(cipher, image, offset, budget) is Ok,
    ensures
        ({
            let chain = spec_read_chain(cipher, image, offset, budget)->Ok_0;
            &&& 1 <= chain.len() <= budget
            &&& chain_wf(chain)
            &&& chain[0].offset == offset
            &&& offset + PK2_FILE_BLOCK_SIZE <= image.len()
        }),
    decreases budget,
{
    lemma_read_block_wf(cipher, image, offset);
    let block = spec_read_block(cipher, image, offset)->Ok_0;
    if block.next_block() != 0 {
        lemma_read_chain_wf(cipher, image, block.next_block(), (budget - 1) as nat);
        let rest = spec_read_chain(cipher, image, block.next_block(), (budget - 1) as nat)->Ok_0;
        let chain = seq![block] + rest;
        assert forall|i: int| 0 <= i < chain.len() implies (#[trigger] chain[i]).wf() by {
            if i > 0 {
                assert(chain[i] == rest[i - 1]);
            }
        }
    }
}

/// The chains that are collected from a sound collection are sound.
pub proof fn lemma_load_inv(
    cipher: Option<BlowfishView>,
    image: Seq<u8>,
    chains: ChainsView,
    pending: Seq<u64>,
    budget: nat,
)
    requires
        image.len() <= usize::MAX,
        chains_wf(chains),
        keys_inside(chains, image),
        spec_load(cipher, image, chains, pending, budget) is Ok,
    ensures
        chains_wf(spec_load(cipher, image, chains, pending, budget)->Ok_0),
        keys_inside(spec_load(cipher, image, chains, pending, budget)->Ok_0, image),
    decreases budget,
{
    if pending.len() > 0 {
        let offset = pending.last();
        lemma_read_chain_wf(cipher, image, offset, chain_budget(image.len()));
        let chain = spec_read_chain(cipher, image, offset, chain_budget(image.len()))->Ok_0;
        let more = chains.insert(offset, chain);
        assert forall|k: u64| more.contains_key(k) implies chain_wf(#[trigger] more[k]) by {
            if k != offset {
                assert(chain_wf(chains[k]));
            }
        }
        lemma_load_inv(
            cipher,
            image,
            more,
            pending.drop_last() + child_links(chain_entries(chain)),
            (budget - 1) as nat,
        );
    }
}

/// An archive that was opened is sound.
pub proof fn lemma_open_inv(image: Seq<u8>, key: Seq<u8>)
    requires
        image.len() <= usize::MAX,
        spec_open(image, key) is Ok,
    ensures
        archive_inv(spec_open(image, key)->Ok_0),
{
    let opened = spec_open(image, key)->Ok_0;
    let empty = Map::<u64, Seq<PackBlockView>>::empty();
    lemma_load_inv(opened.cipher, image, empty, seq![PK2_ROOT_BLOCK], image.len());
}

/// The blocks of a chain that is read are linked: each names the next in
/// its last entry, and the last names none.
pub proof fn lemma_read_chain_linked(
    cipher: Option<BlowfishView>,
    image: Seq<u8>,
    offset: u64,
    budget: nat,
)
    requires
        image.len() <= usize::MAX,
        spec_read_chain(cipher, image, offset, budget) is Ok,
    ensures
        chain_linked(spec_read_chain(cipher, image, offset, budget)->Ok_0),
        spec_read_chain(cipher, image, offset, budget)->Ok_0.len() >= 1,
        spec_read_chain(cipher, image, offset, budget)->Ok_0[0].offset == offset,
    decreases budget,
{
    lemma_read_block_wf(cipher, image, offset);
    let block = spec_read_block(cipher, image, offset)->Ok_0;
    if block.next_block() != 0 {
        lemma_read_chain_linked(cipher, image, block.next_block(), (budget - 1) as nat);
        let rest = spec_read_chain(cipher, image, block.next_block(), (budget - 1) as nat)->Ok_0;
        let chain = seq![block] + rest;
        assert forall|k: int| 0 <= k < chain.len() - 1 implies (#[trigger] chain[k]).next_block()
            == chain[k + 1].offset && chain[k + 1].offset != 0 by {
            if k > 0 {
                assert(chain[k] == rest[k - 1]);
                assert(chain[k + 1] == rest[k]);
            } else {
                assert(chain[1] == rest[0]);
            }
        }
        assert(chain.last() == rest.last());
    }
}

/// A linked chain that is given one more block, at an offset other than
/// zero, is linked.
pub proof fn lemma_pushed_and_linked_links(blocks: Seq<PackBlockView>, block: PackBlockView)
    requires
        chain_wf(blocks),
        chain_linked(blocks),
        block.wf(),
        block.entries == empty_entries(),
        block.offset != 0,
    ensures
        chain_linked(chain_pushed_and_linked(blocks, block)),
{
    let last = blocks.len() * 20 - 1;
    let old_entries = chain_entries(blocks);
    let linked_entry = old_entries[last].with_next_block(block.offset);
    let linked = chain_with_entry(blocks, last, linked_entry);
    let grown = linked.push(block);
    assert(grown == chain_pushed_and_linked(blocks, block));
    assert(last / 20 == blocks.len() - 1);
    assert(last % 20 == 19);
    assert forall|k: int| 0 <= k < grown.len() - 1 implies (#[trigger] grown[k]).next_block()
        == grown[k + 1].offset && grown[k + 1].offset != 0 by {
        if k < blocks.len() - 1 {
            assert(grown[k] == blocks[k]);
            assert(blocks[k].next_block() == blocks[k + 1].offset);
            assert(grown[k + 1].offset == blocks[k + 1].offset);
        } else {
            assert(grown[k].entries[19] == linked_entry);
        }
    }
    assert(grown.last() == block);
}

/// Finding a slot keeps an archive sound, however it ends.
#[verifier::spinoff_prover]
pub proof fn lemma_find_slot_inv(
    cipher: Option<BlowfishView>,
    chains: ChainsView,
    image: Seq<u8>,
    current: u64,
)
    requires
        chains_wf(chains),
        keys_inside(chains, image),
        chains.contains_key(current),
    ensures
        ({
            let slot = spec_find_slot(cipher, chains, image, current);
            &&& chains_wf(slot.chains)
            &&& keys_inside(slot.chains, slot.image)
            &&& slot.chains.contains_key(current)
            &&& slot.result is Ok ==> slot.result->Ok_0.0 == current && 0 <= slot.result->Ok_0.1
                < chain_entries(slot.chains[current]).len()
        }),
{
    let slot = spec_find_slot(cipher, chains, image, current);
    let chain = chains[current];
    assert(chain_wf(chain));
    if slot.result is Ok {
        lemma_find_slot(cipher, chains, image, current);
    } else if first_index(chain_entries(chain), unused()) is None && chain.len()
        < PK2_MAX_CHAIN_BLOCKS && can_append_block(image) {
        let offset = image.len() as u64;
        let block = PackBlockView { offset, entries: empty_entries() };
        assert(block.wf());
        lemma_append_block_len(cipher, image, empty_entries());
        lemma_pushed_and_linked(chain, block, Seq::empty());
        let grown = chain_pushed_and_linked(chain, block);
        assert(slot.chains == chains.insert(current, grown));
        assert forall|k: u64| slot.chains.contains_key(k) implies chain_wf(
            #[trigger] slot.chains[k],
        ) by {
            if k != current {
                assert(chain_wf(chains[k]));
            }
        }
    }
}

/// Making a directory keeps an archive sound, however it ends.
#[verifier::spinoff_prover]
pub proof fn lemma_make_directory_inv(
    cipher: Option<BlowfishView>,
    chains: ChainsView,
    image: Seq<u8>,
    parent: u64,
    idx: int,
    name: Seq<u8>,
)
    requires
        chains_wf(chains),
        keys_inside(chains, image),
        chains.contains_key(parent),
        0 <= idx < chain_entries(chains[parent]).len(),
        valid_name(name),
    ensures
        ({
            let made = spec_make_directory(cipher, chains, image, parent, idx, name);
            &&& chains_wf(made.chains)
            &&& keys_inside(made.chains, made.image)
            &&& made.result is Ok ==> made.chains.contains_key(made.result->Ok_0.0)
        }),
{
    let made = spec_make_directory(cipher, chains, image, parent, idx, name);
    let chain = chains[parent];
    assert(chain_wf(chain));
    if made.result is Ok {
        lemma_make_directory(cipher, chains, image, parent, idx, name);
    } else if can_append_block(image) {
        let offset = image.len() as u64;
        let link = spec_link(chains, image, parent, idx, name);
        assert(link.wf());
        let fresh_entries = new_chain_entries(offset, chain[0].offset);
        assert(forall|i: int| 0 <= i < fresh_entries.len() ==> (#[trigger] fresh_entries[i]).wf());
        lemma_append_block_len(cipher, image, fresh_entries);
        lemma_chain_with_entry(chain, idx, link);
        assert(made.chains == chains.insert(parent, chain_with_entry(chain, idx, link)));
        assert forall|k: u64| made.chains.contains_key(k) implies chain_wf(
            #[trigger] made.chains[k],
        ) by {
            if k != parent {
                assert(chain_wf(chains[k]));
            }
        }
    }
}

/// Creating from a chain on keeps an archive sound, however it ends.
#[verifier::spinoff_prover]
pub proof fn lemma_create_from_inv(
    cipher: Option<BlowfishView>,
    chains: ChainsView,
    image: Seq<u8>,
    current: u64,
    names: Seq<Seq<u8>>,
)
    requires
        chains_wf(chains),
        keys_inside(chains, image),
    ensures
        ({
            let made = spec_create_from(cipher, chains, image, current, names);
            &&& chains_wf(made.chains)
            &&& keys_inside(made.chains, made.image)
            &&& made.result is Ok ==> made.chains.contains_key(made.result->Ok_0.0) && 0
                <= made.result->Ok_0.1 < chain_entries(made.chains[made.result->Ok_0.0]).len()
        }),
    decreases names.len(),
{
    if names.len() > 0 && chains.contains_key(current) {
        if names[0] == parent_dir_name() {
            match spec_find_child(chain_entries(chains[current]), parent_dir_name()) {
                Ok(parent) => {
                    lemma_create_from_inv(cipher, chains, image, parent, names.skip(1));
                },
                Err(_) => {},
            }
        } else if spec_is_text(names[0]) && valid_name(names[0]) {
            lemma_find_slot_inv(cipher, chains, image, current);
            let slot = spec_find_slot(cipher, chains, image, current);
            if slot.result is Ok {
                let idx = slot.result->Ok_0.1;
                if names.len() > 1 {
                    lemma_make_directory_inv(
                        cipher,
                        slot.chains,
                        slot.image,
                        current,
                        idx,
                        names[0],
                    );
                    let dir = spec_make_directory(
                        cipher,
                        slot.chains,
                        slot.image,
                        current,
                        idx,
                        names[0],
                    );
                    if dir.result is Ok {
                        lemma_create_from_inv(
                            cipher,
                            dir.chains,
                            dir.image,
                            dir.result->Ok_0.0,
                            names.skip(1),
                        );
                    }
                }
            }
        }
    }
}

/// Creating a file keeps an archive sound, however it ends.
#[verifier::spinoff_prover]
pub proof fn lemma_create_file_inv(archive: Pk2View, path: Seq<u8>)
    requires
        archive_inv(archive),
    ensures
        archive_inv(spec_create_file(archive, path).0),
{
    let after = spec_create_file(archive, path).0;
    match spec_check_root(path) {
        Err(_) => {},
        Ok(rest) => {
            let names = spec_components(rest);
            if !(names.len() == 0 || names.last() == parent_dir_name() || !spec_is_text(
                names.last(),
            ) || !valid_name(names.last()) || spec_resolve_entry(
                archive.chains,
                PK2_ROOT_BLOCK,
                names,
            ) is Ok) {
                let made = spec_create_entry_at(
                    archive.cipher,
                    archive.chains,
                    archive.image,
                    PK2_ROOT_BLOCK,
                    names,
                );
                match spec_validate_dir_path(archive.chains, PK2_ROOT_BLOCK, names) {
                    Err(_) => {},
                    Ok((reached, left)) => {
                        lemma_create_from_inv(
                            archive.cipher,
                            archive.chains,
                            archive.image,
                            reached,
                            left,
                        );
                    },
                }
                match made.result {
                    Err(_) => {},
                    Ok((chain, idx)) => {
                        let before = made.chains[chain];
                        assert(chain_wf(before));
                        let file = PackEntryView::file(
                            names.last(),
                            0,
                            0,
                            chain_entries(before)[idx].next_block(),
                        );
                        assert(file.wf());
                        let at = spec_file_offset_for_entry(before, idx) as u64;
                        lemma_chain_with_entry(before, idx, file);
                        if can_write_entry(made.image, at) {
                            lemma_entry_write_keeps_len(archive.cipher, made.image, at, file);
                        }
                        assert forall|k: u64| after.chains.contains_key(k) implies chain_wf(
                            #[trigger] after.chains[k],
                        ) by {
                            if k != chain {
                                assert(chain_wf(made.chains[k]));
                            }
                        }
                    },
                }
            }
        },
    }
}

/// Deleting a file keeps an archive sound, however it ends.
#[verifier::spinoff_prover]
pub proof fn lemma_delete_file_inv(archive: Pk2View, path: Seq<u8>)
    requires
        archive_inv(archive),
    ensures
        archive_inv(spec_delete_file(archive, path).0),
{
    let after = spec_delete_file(archive, path).0;
    match spec_open_file(archive.chains, path) {
        Err(_) => {},
        Ok((chain, idx)) => {
            let before = archive.chains[chain];
            assert(archive.chains.contains_key(chain));
            assert(chain_wf(before));
            let cleared = PackEntryView::Empty {
                next_block: chain_entries(before)[idx].next_block(),
            };
            let at = spec_file_offset_for_entry(before, idx) as u64;
            lemma_first_index(
                chain_entries(before),
                named(spec_components(path.skip(1)).last()),
            );
            lemma_chain_with_entry(before, idx, cleared);
            if can_write_entry(archive.image, at) {
                lemma_entry_write_keeps_len(archive.cipher, archive.image, at, cleared);
            }
            assert forall|k: u64| after.chains.contains_key(k) implies chain_wf(
                #[trigger] after.chains[k],
            ) by {
                if k != chain {
                    assert(chain_wf(archive.chains[k]));
                }
            }
        },
    }
}

/// Whether the entries `b` still hold the directories of the entries `a`,
/// each in its place, with its name and its chain.
pub open spec fn dirs_kept(a: Seq<PackEntryView>, b: Seq<PackEntryView>) -> bool {
    &&& a.len() <= b.len()
    &&& forall|i: int| 0 <= i < a.len() && (#[trigger] a[i]) is Directory ==> same_target(a[i], b[i])
}

/// Whether the chains `after` keep the shape of the chains `before`: every
/// chain is still there, starts at the same offset and holds its
/// directories, and every chain that was added starts with `.` and `..`.
pub open spec fn shape_kept(before: ChainsView, after: ChainsView) -> bool {
    &&& forall|k: u64| #[trigger]
        before.contains_key(k) ==> after.contains_key(k) && after[k][0].offset
            == before[k][0].offset && dirs_kept(chain_entries(before[k]), chain_entries(after[k]))
    &&& forall|k: u64|
        after.contains_key(k) && !before.contains_key(k) ==> #[trigger] names_parent(after, k)
}

/// Whether the chains have the shape of a directory tree as the engine
/// builds it: the chain of the root directory is there and starts with `.`,
/// which names it, and every other chain starts with `.`, which names it,
/// and `..`, which names the first block of a chain.
pub open spec fn shaped(chains: ChainsView) -> bool {
    &&& chains.contains_key(PK2_ROOT_BLOCK)
    &&& chain_entries(chains[PK2_ROOT_BLOCK])[0] matches PackEntryView::Directory(own)
        && own.name == current_dir_name() && own.pos_children == PK2_ROOT_BLOCK
    &&& forall|k: u64| chains.contains_key(k) && k != PK2_ROOT_BLOCK ==> #[trigger] names_parent(chains, k)
}

/// Chains keep their own shape.
pub proof fn lemma_shape_kept_refl(chains: ChainsView)
    ensures
        shape_kept(chains, chains),
{
}

/// A chain that starts with `.` and `..` still does where the shape is
/// kept.
pub proof fn lemma_names_parent_kept(a: ChainsView, b: ChainsView, k: u64)
    requires
        chains_wf(a),
        shape_kept(a, b),
        a.contains_key(k),
        names_parent(a, k),
    ensures
        names_parent(b, k),
{
    let before = chain_entries(a[k]);
    let after = chain_entries(b[k]);
    assert(chain_wf(a[k]));
    assert(a[k][0].wf());
    assert(dirs_kept(before, after));
    assert(same_target(before[0], after[0]));
    assert(same_target(before[1], after[1]));
    let up = before[1]->Directory_0;
    let p = choose|p: u64| #[trigger] a.contains_key(p) && up.pos_children == a[p][0].offset;
    assert(b.contains_key(p) && after[1]->Directory_0.pos_children == b[p][0].offset);
}

/// A shape that is kept twice is kept.
pub proof fn lemma_shape_kept_trans(a: ChainsView, b: ChainsView, c: ChainsView)
    requires
        chains_wf(a),
        chains_wf(b),
        shape_kept(a, b),
        shape_kept(b, c),
    ensures
        shape_kept(a, c),
{
    assert forall|k: u64| #[trigger] a.contains_key(k) implies c.contains_key(k) && c[k][0].offset
        == a[k][0].offset && dirs_kept(chain_entries(a[k]), chain_entries(c[k])) by {
        assert(b.contains_key(k));
        let x = chain_entries(a[k]);
        let y = chain_entries(b[k]);
        let z = chain_entries(c[k]);
        assert(dirs_kept(x, y));
        assert(dirs_kept(y, z));
        assert forall|i: int| 0 <= i < x.len() && (#[trigger] x[i]) is Directory implies same_target(
            x[i],
            z[i],
        ) by {
            assert(same_target(x[i], y[i]));
            assert(y[i] is Directory);
            assert(same_target(y[i], z[i]));
        }
    }
    assert forall|k: u64| c.contains_key(k) && !a.contains_key(k) implies #[trigger] names_parent(
        c,
        k,
    ) by {
        if b.contains_key(k) {
            assert(names_parent(b, k));
            lemma_names_parent_kept(b, c, k);
        }
    }
}

/// Chains of the shape of a tree have it still where their shape is kept.
pub proof fn lemma_shaped_kept(a: ChainsView, b: ChainsView)
    requires
        chains_wf(a),
        shaped(a),
        shape_kept(a, b),
    ensures
        shaped(b),
{
    let root = chain_entries(a[PK2_ROOT_BLOCK]);
    assert(a.contains_key(PK2_ROOT_BLOCK));
    assert(chain_wf(a[PK2_ROOT_BLOCK]));
    assert(a[PK2_ROOT_BLOCK][0].wf());
    assert(dirs_kept(root, chain_entries(b[PK2_ROOT_BLOCK])));
    assert(same_target(root[0], chain_entries(b[PK2_ROOT_BLOCK])[0]));
    assert forall|k: u64| b.contains_key(k) && k != PK2_ROOT_BLOCK implies #[trigger] names_parent(
        b,
        k,
    ) by {
        if a.contains_key(k) {
            assert(names_parent(a, k));
            lemma_names_parent_kept(a, b, k);
        }
    }
}

/// Setting an entry that is no directory keeps the shape.
pub proof fn lemma_entry_update_shape(
    chains: ChainsView,
    chain: u64,
    idx: int,
    entry: PackEntryView,
)
    requires
        chains_wf(chains),
        chains.contains_key(chain),
        0 <= idx < chain_entries(chains[chain]).len(),
        !(chain_entries(chains[chain])[idx] is Directory),
    ensures
        shape_kept(chains, chains.insert(chain, chain_with_entry(chains[chain], idx, entry))),
{
    assert(chain_wf(chains[chain]));
    lemma_chain_with_entry(chains[chain], idx, entry);
    let after = chains.insert(chain, chain_with_entry(chains[chain], idx, entry));
    assert forall|k: u64| #[trigger] chains.contains_key(k) implies after.contains_key(k)
        && after[k][0].offset == chains[k][0].offset && dirs_kept(
        chain_entries(chains[k]),
        chain_entries(after[k]),
    ) by {}
}

/// Finding a slot keeps the shape, however it ends.
#[verifier::spinoff_prover]
pub proof fn lemma_find_slot_shape(
    cipher: Option<BlowfishView>,
    chains: ChainsView,
    image: Seq<u8>,
    current: u64,
)
    requires
        chains_wf(chains),
        keys_inside(chains, image),
        chains.contains_key(current),
    ensures
        ({
            let slot = spec_find_slot(cipher, chains, image, current);
            &&& shape_kept(chains, slot.chains)
            &&& slot.result is Ok ==> chain_entries(slot.chains[current])[slot.result->Ok_0.1]
                is Empty
        }),
{
    let slot = spec_find_slot(cipher, chains, image, current);
    let chain = chains[current];
    assert(chain_wf(chain));
    if slot.result is Ok {
        lemma_find_slot(cipher, chains, image, current);
    }
    if first_index(chain_entries(chain), unused()) is None && chain.len() < PK2_MAX_CHAIN_BLOCKS
        && can_append_block(image) {
        let offset = image.len() as u64;
        let block = PackBlockView { offset, entries: empty_entries() };
        assert(block.wf());
        lemma_pushed_and_linked(chain, block, Seq::empty());
        let grown = chain_pushed_and_linked(chain, block);
        assert(slot.chains == chains.insert(current, grown));
        assert(grows(chain_entries(chain), chain_entries(grown), Seq::empty()));
        assert forall|k: u64| #[trigger] chains.contains_key(k) implies slot.chains.contains_key(k)
            && slot.chains[k][0].offset == chains[k][0].offset && dirs_kept(
            chain_entries(chains[k]),
            chain_entries(slot.chains[k]),
        ) by {}
    }
}

/// Making a directory in an unused slot keeps the shape, however it ends.
#[verifier::spinoff_prover]
pub proof fn lemma_make_directory_shape(
    cipher: Option<BlowfishView>,
    chains: ChainsView,
    image: Seq<u8>,
    parent: u64,
    idx: int,
    name: Seq<u8>,
)
    requires
        chains_wf(chains),
        keys_inside(chains, image),
        chains.contains_key(parent),
        0 <= idx < chain_entries(chains[parent]).len(),
        chain_entries(chains[parent])[idx] is Empty,
        valid_name(name),
    ensures
        shape_kept(chains, spec_make_directory(cipher, chains, image, parent, idx, name).chains),
{
    let made = spec_make_directory(cipher, chains, image, parent, idx, name);
    let chain = chains[parent];
    assert(chain_wf(chain));
    if can_append_block(image) {
        let link = spec_link(chains, image, parent, idx, name);
        lemma_chain_with_entry(chain, idx, link);
        lemma_entry_update_shape(chains, parent, idx, link);
        if made.result is Ok {
            lemma_make_directory(cipher, chains, image, parent, idx, name);
            let child = made.result->Ok_0.0;
            assert(made.chains.contains_key(parent));
            assert(names_parent(made.chains, child));
            assert forall|k: u64| #[trigger] chains.contains_key(k) implies made.chains.contains_key(
                k,
            ) && made.chains[k][0].offset == chains[k][0].offset && dirs_kept(
                chain_entries(chains[k]),
                chain_entries(made.chains[k]),
            ) by {
                if k != parent {
                    assert(made.chains[k] == chains[k]);
                }
            }
        }
    }
}

/// Creating from a chain on keeps the shape, however it ends; where it
/// succeeds, the slot that it gives is unused.
#[verifier::spinoff_prover]
pub proof fn lemma_create_from_shape(
    cipher: Option<BlowfishView>,
    chains: ChainsView,
    image: Seq<u8>,
    current: u64,
    names: Seq<Seq<u8>>,
)
    requires
        chains_wf(chains),
        keys_inside(chains, image),
    ensures
        ({
            let made = spec_create_from(cipher, chains, image, current, names);
            &&& shape_kept(chains, made.chains)
            &&& made.result is Ok ==> chain_entries(
                made.chains[made.result->Ok_0.0],
            )[made.result->Ok_0.1] is Empty
        }),
    decreases names.len(),
{
    if names.len() > 0 && chains.contains_key(current) {
        if names[0] == parent_dir_name() {
            match spec_find_child(chain_entries(chains[current]), parent_dir_name()) {
                Ok(parent) => {
                    lemma_create_from_shape(cipher, chains, image, parent, names.skip(1));
                },
                Err(_) => {},
            }
        } else if spec_is_text(names[0]) && valid_name(names[0]) {
            lemma_find_slot_inv(cipher, chains, image, current);
            lemma_find_slot_shape(cipher, chains, image, current);
            let slot = spec_find_slot(cipher, chains, image, current);
            if slot.result is Ok && names.len() > 1 {
                let idx = slot.result->Ok_0.1;
                lemma_make_directory_inv(cipher, slot.chains, slot.image, current, idx, names[0]);
                lemma_make_directory_shape(cipher, slot.chains, slot.image, current, idx, names[0]);
                let dir = spec_make_directory(
                    cipher,
                    slot.chains,
                    slot.image,
                    current,
                    idx,
                    names[0],
                );
                lemma_shape_kept_trans(chains, slot.chains, dir.chains);
                if dir.result is Ok {
                    lemma_create_from_shape(
                        cipher,
                        dir.chains,
                        dir.image,
                        dir.result->Ok_0.0,
                        names.skip(1),
                    );
                    let made = spec_create_from(cipher, chains, image, current, names);
                    lemma_shape_kept_trans(chains, dir.chains, made.chains);
                }
            }
        }
    }
}

/// A new archive has the shape of a tree.
pub proof fn lemma_fresh_shaped(cipher: Option<BlowfishView>)
    ensures
        shaped(spec_fresh_archive(cipher).chains),
{
    let chains = spec_fresh_archive(cipher).chains;
    assert(chain_entries(chains[PK2_ROOT_BLOCK])[0] == crate::archive::root_entries()[0]);
}

/// Creating a file keeps the shape of a tree, however it ends.
#[verifier::spinoff_prover]
pub proof fn lemma_create_file_shaped(archive: Pk2View, path: Seq<u8>)
    requires
        archive_inv(archive),
        shaped(archive.chains),
    ensures
        shaped(spec_create_file(archive, path).0.chains),
{
    let after = spec_create_file(archive, path).0;
    match spec_check_root(path) {
        Err(_) => {},
        Ok(rest) => {
            let names = spec_components(rest);
            if !(names.len() == 0 || names.last() == parent_dir_name() || !spec_is_text(
                names.last(),
            ) || !valid_name(names.last()) || spec_resolve_entry(
                archive.chains,
                PK2_ROOT_BLOCK,
                names,
            ) is Ok) {
                let made = spec_create_entry_at(
                    archive.cipher,
                    archive.chains,
                    archive.image,
                    PK2_ROOT_BLOCK,
                    names,
                );
                match spec_validate_dir_path(archive.chains, PK2_ROOT_BLOCK, names) {
                    Err(_) => {},
                    Ok((reached, left)) => {
                        lemma_create_from_inv(
                            archive.cipher,
                            archive.chains,
                            archive.image,
                            reached,
                            left,
                        );
                        lemma_create_from_shape(
                            archive.cipher,
                            archive.chains,
                            archive.image,
                            reached,
                            left,
                        );
                    },
                }
                lemma_shaped_kept(archive.chains, made.chains);
                match made.result {
                    Err(_) => {},
                    Ok((chain, idx)) => {
                        let before = made.chains[chain];
                        let file = PackEntryView::file(
                            names.last(),
                            0,
                            0,
                            chain_entries(before)[idx].next_block(),
                        );
                        lemma_entry_update_shape(made.chains, chain, idx, file);
                        lemma_shaped_kept(made.chains, after.chains);
                    },
                }
            }
        },
    }
}

/// Deleting a file keeps the shape of a tree, however it ends.
#[verifier::spinoff_prover]
pub proof fn lemma_delete_file_shaped(archive: Pk2View, path: Seq<u8>)
    requires
        archive_inv(archive),
        shaped(archive.chains),
    ensures
        shaped(spec_delete_file(archive, path).0.chains),
{
    let after = spec_delete_file(archive, path).0;
    match spec_open_file(archive.chains, path) {
        Err(_) => {},
        Ok((chain, idx)) => {
            let before = archive.chains[chain];
            assert(archive.chains.contains_key(chain));
            let cleared = PackEntryView::Empty {
                next_block: chain_entries(before)[idx].next_block(),
            };
            lemma_first_index(
                chain_entries(before),
                named(spec_components(path.skip(1)).last()),
            );
            lemma_entry_update_shape(archive.chains, chain, idx, cleared);
            lemma_shaped_kept(archive.chains, after.chains);
        },
    }
}

/// Whether every chain is linked: each of its blocks but the last names the
/// next in its last entry, and the last names none.
pub open spec fn all_linked(chains: ChainsView) -> bool {
    forall|k: u64| chains.contains_key(k) ==> chain_linked(#[trigger] chains[k])
}

/// Setting an entry to one that names the same next block keeps a chain
/// linked.
pub proof fn lemma_entry_update_links(blocks: Seq<PackBlockView>, idx: int, entry: PackEntryView)
    requires
        chain_wf(blocks),
        chain_linked(blocks),
        0 <= idx < chain_entries(blocks).len(),
        entry.next_block() == chain_entries(blocks)[idx].next_block(),
    ensures
        chain_linked(chain_with_entry(blocks, idx, entry)),
{
    let after = chain_with_entry(blocks, idx, entry);
    lemma_chain_with_entry(blocks, idx, entry);
    assert forall|k: int| 0 <= k < after.len() implies (#[trigger] after[k]).next_block()
        == blocks[k].next_block() && after[k].offset == blocks[k].offset by {
        assert(blocks[k].wf());
        if k == idx / 20 && idx % 20 == 19 {
            assert(after[k].entries[19] == entry);
        }
    }
    assert forall|k: int| 0 <= k < after.len() - 1 implies (#[trigger] after[k]).next_block()
        == after[k + 1].offset && after[k + 1].offset != 0 by {
        assert(blocks[k].next_block() == blocks[k + 1].offset);
        assert(after[k + 1].offset == blocks[k + 1].offset);
    }
    assert(after.last().next_block() == blocks.last().next_block());
}

/// Finding a slot keeps all chains linked, however it ends.
#[verifier::spinoff_prover]
pub proof fn lemma_find_slot_links(
    cipher: Option<BlowfishView>,
    chains: ChainsView,
    image: Seq<u8>,
    current: u64,
)
    requires
        chains_wf(chains),
        keys_inside(chains, image),
        all_linked(chains),
        chains.contains_key(current),
    ensures
        all_linked(spec_find_slot(cipher, chains, image, current).chains),
{
    let slot = spec_find_slot(cipher, chains, image, current);
    let chain = chains[current];
    assert(chain_wf(chain));
    assert(chain_linked(chain));
    if first_index(chain_entries(chain), unused()) is None && chain.len() < PK2_MAX_CHAIN_BLOCKS
        && can_append_block(image) {
        let offset = image.len() as u64;
        let block = PackBlockView { offset, entries: empty_entries() };
        assert(block.wf());
        lemma_pushed_and_linked_links(chain, block);
        assert forall|k: u64| slot.chains.contains_key(k) implies chain_linked(
            #[trigger] slot.chains[k],
        ) by {
            if k != current {
                assert(chain_linked(chains[k]));
            }
        }
    }
}

/// Making a directory keeps all chains linked, however it ends.
#[verifier::spinoff_prover]
pub proof fn lemma_make_directory_links(
    cipher: Option<BlowfishView>,
    chains: ChainsView,
    image: Seq<u8>,
    parent: u64,
    idx: int,
    name: Seq<u8>,
)
    requires
        chains_wf(chains),
        keys_inside(chains, image),
        all_linked(chains),
        chains.contains_key(parent),
        0 <= idx < chain_entries(chains[parent]).len(),
        valid_name(name),
    ensures
        all_linked(spec_make_directory(cipher, chains, image, parent, idx, name).chains),
{
    let made = spec_make_directory(cipher, chains, image, parent, idx, name);
    let chain = chains[parent];
    assert(chain_wf(chain));
    assert(chain_linked(chain));
    if can_append_block(image) {
        let offset = image.len() as u64;
        let link = spec_link(chains, image, parent, idx, name);
        lemma_entry_update_links(chain, idx, link);
        let fresh = seq![
            PackBlockView { offset, entries: new_chain_entries(offset, chain[0].offset) },
        ];
        assert(fresh.last().next_block() == 0);
        assert(chain_linked(fresh));
        assert forall|k: u64| made.chains.contains_key(k) implies chain_linked(
            #[trigger] made.chains[k],
        ) by {
            if k != parent && k != offset {
                assert(chain_linked(chains[k]));
            }
        }
    }
}

/// Creating from a chain on keeps all chains linked, however it ends.
#[verifier::spinoff_prover]
pub proof fn lemma_create_from_links(
    cipher: Option<BlowfishView>,
    chains: ChainsView,
    image: Seq<u8>,
    current: u64,
    names: Seq<Seq<u8>>,
)
    requires
        chains_wf(chains),
        keys_inside(chains, image),
        all_linked(chains),
    ensures
        all_linked(spec_create_from(cipher, chains, image, current, names).chains),
    decreases names.len(),
{
    if names.len() > 0 && chains.contains_key(current) {
        if names[0] == parent_dir_name() {
            match spec_find_child(chain_entries(chains[current]), parent_dir_name()) {
                Ok(parent) => {
                    lemma_create_from_links(cipher, chains, image, parent, names.skip(1));
                },
                Err(_) => {},
            }
        } else if spec_is_text(names[0]) && valid_name(names[0]) {
            lemma_find_slot_inv(cipher, chains, image, current);
            lemma_find_slot_links(cipher, chains, image, current);
            let slot = spec_find_slot(cipher, chains, image, current);
            if slot.result is Ok && names.len() > 1 {
                let idx = slot.result->Ok_0.1;
                lemma_make_directory_inv(cipher, slot.chains, slot.image, current, idx, names[0]);
                lemma_make_directory_links(cipher, slot.chains, slot.image, current, idx, names[0]);
                let dir = spec_make_directory(
                    cipher,
                    slot.chains,
                    slot.image,
                    current,
                    idx,
                    names[0],
                );
                if dir.result is Ok {
                    lemma_create_from_links(
                        cipher,
                        dir.chains,
                        dir.image,
                        dir.result->Ok_0.0,
                        names.skip(1),
                    );
                }
            }
        }
    }
}

/// In a new archive all chains are linked.
pub proof fn lemma_fresh_linked(cipher: Option<BlowfishView>)
    ensures
        all_linked(spec_fresh_archive(cipher).chains),
{
    let chains = spec_fresh_archive(cipher).chains;
    let chain = chains[PK2_ROOT_BLOCK];
    assert(chain.last().next_block() == 0);
    assert(chain_linked(chain));
}

/// Creating a file keeps all chains linked, however it ends.
#[verifier::spinoff_prover]
pub proof fn lemma_create_file_linked(archive: Pk2View, path: Seq<u8>)
    requires
        archive_inv(archive),
        all_linked(archive.chains),
    ensures
        all_linked(spec_create_file(archive, path).0.chains),
{
    let after = spec_create_file(archive, path).0;
    match spec_check_root(path) {
        Err(_) => {},
        Ok(rest) => {
            let names = spec_components(rest);
            if !(names.len() == 0 || names.last() == parent_dir_name() || !spec_is_text(
                names.last(),
            ) || !valid_name(names.last()) || spec_resolve_entry(
                archive.chains,
                PK2_ROOT_BLOCK,
                names,
            ) is Ok) {
                let made = spec_create_entry_at(
                    archive.cipher,
                    archive.chains,
                    archive.image,
                    PK2_ROOT_BLOCK,
                    names,
                );
                match spec_validate_dir_path(archive.chains, PK2_ROOT_BLOCK, names) {
                    Err(_) => {},
                    Ok((reached, left)) => {
                        lemma_create_from_inv(
                            archive.cipher,
                            archive.chains,
                            archive.image,
                            reached,
                            left,
                        );
                        lemma_create_from_links(
                            archive.cipher,
                            archive.chains,
                            archive.image,
                            reached,
                            left,
                        );
                    },
                }
                match made.result {
                    Err(_) => {},
                    Ok((chain, idx)) => {
                        let before = made.chains[chain];
                        assert(chain_wf(before));
                        assert(chain_linked(before));
                        let file = PackEntryView::file(
                            names.last(),
                            0,
                            0,
                            chain_entries(before)[idx].next_block(),
                        );
                        lemma_entry_update_links(before, idx, file);
                        assert forall|k: u64| after.chains.contains_key(k) implies chain_linked(
                            #[trigger] after.chains[k],
                        ) by {
                            if k != chain {
                                assert(chain_linked(made.chains[k]));
                            }
                        }
                    },
                }
            }
        },
    }
}

/// Deleting a file keeps all chains linked, however it ends.
#[verifier::spinoff_prover]
pub proof fn lemma_delete_file_linked(archive: Pk2View, path: Seq<u8>)
    requires
        archive_inv(archive),
        all_linked(archive.chains),
    ensures
        all_linked(spec_delete_file(archive, path).0.chains),
{
    let after = spec_delete_file(archive, path).0;
    match spec_open_file(archive.chains, path) {
        Err(_) => {},
        Ok((chain, idx)) => {
            let before = archive.chains[chain];
            assert(archive.chains.contains_key(chain));
            assert(chain_wf(before));
            assert(chain_linked(before));
            let cleared = PackEntryView::Empty {
                next_block: chain_entries(before)[idx].next_block(),
            };
            lemma_first_index(
                chain_entries(before),
                named(spec_components(path.skip(1)).last()),
            );
            lemma_entry_update_links(before, idx, cleared);
            assert forall|k: u64| after.chains.contains_key(k) implies chain_linked(
                #[trigger] after.chains[k],
            ) by {
                if k != chain {
                    assert(chain_linked(archive.chains[k]));
                }
            }
        },
    }
}

/// The chains that are collected from an image are linked, where those that
/// were collected before are.
pub proof fn lemma_load_linked(
    cipher: Option<BlowfishView>,
    image: Seq<u8>,
    chains: ChainsView,
    pending: Seq<u64>,
    budget: nat,
)
    requires
        image.len() <= usize::MAX,
        all_linked(chains),
        spec_load(cipher, image, chains, pending, budget) is Ok,
    ensures
        all_linked(spec_load(cipher, image, chains, pending, budget)->Ok_0),
    decreases budget,
{
    if pending.len() > 0 {
        let offset = pending.last();
        lemma_read_chain_linked(cipher, image, offset, chain_budget(image.len()));
        let chain = spec_read_chain(cipher, image, offset, chain_budget(image.len()))->Ok_0;
        let more = chains.insert(offset, chain);
        assert forall|k: u64| more.contains_key(k) implies chain_linked(#[trigger] more[k]) by {
            if k != offset {
                assert(chain_linked(chains[k]));
            }
        }
        lemma_load_linked(
            cipher,
            image,
            more,
            pending.drop_last() + child_links(chain_entries(chain)),
            (budget - 1) as nat,
        );
    }
}

/// In an archive that was opened all chains are linked.
pub proof fn lemma_open_linked(image: Seq<u8>, key: Seq<u8>)
    requires
        image.len() <= usize::MAX,
        spec_open(image, key) is Ok,
    ensures
        all_linked(spec_open(image, key)->Ok_0.chains),
{
    let opened = spec_open(image, key)->Ok_0;
    let empty = Map::<u64, Seq<PackBlockView>>::empty();
    lemma_load_linked(opened.cipher, image, empty, seq![PK2_ROOT_BLOCK], image.len());
}

} // verus!
