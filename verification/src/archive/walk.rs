//! The walk through all files below a directory.

use vstd::prelude::*;
use vstd::string::StringSliceAdditionalSpecFns;
use vstd::utf8::encode_utf8;
use crate::archive::{Pk2, is_file_at, spec_open_directory};
use crate::archive::fs::File;
use crate::error::{Error, Pk2Result};
use crate::path::{join, spec_is_text, spec_join, to_text};
use crate::raw::ChainIndex;
use crate::raw::block_chain::chain_entries;
use crate::raw::block_manager::ChainsView;
use crate::raw::entry::{PackEntry, PackEntryView};

verus! {

/// A file met on a walk: its path from where the walk began, and the chain
/// and position of its entry.
pub struct Found {
    pub path: Seq<u8>,
    pub chain: u64,
    pub idx: int,
}

/// A directory that a walk has yet to visit: its chain, and its path from
/// where the walk began.
pub struct Pending {
    pub chain: u64,
    pub path: Seq<u8>,
}

/// The files among the entries of the chain `chain`, in the order of the
/// entries, each with its name put behind `prefix`.
pub open spec fn files_in(entries: Seq<PackEntryView>, chain: u64, prefix: Seq<u8>) -> Seq<Found>
    decreases entries.len(),
{
    if entries.len() == 0 {
        Seq::empty()
    } else {
        files_in(entries.drop_last(), chain, prefix) + (match entries.last() {
            PackEntryView::File(f) => seq![
                Found { path: spec_join(prefix, f.name), chain, idx: entries.len() - 1 },
            ],
            _ => Seq::empty(),
        })
    }
}

/// The directories among `entries` other than `.` and `..`, in the order of
/// the entries, each with its name put behind `prefix`.
pub open spec fn dirs_in(entries: Seq<PackEntryView>, prefix: Seq<u8>) -> Seq<Pending>
    decreases entries.len(),
{
    if entries.len() == 0 {
        Seq::empty()
    } else {
        dirs_in(entries.drop_last(), prefix) + (match entries.last() {
            PackEntryView::Directory(d) if d.is_normal_link() => seq![
                Pending { chain: d.pos_children, path: spec_join(prefix, d.name) },
            ],
            _ => Seq::empty(),
        })
    }
}

/// Files put before the outcome of the rest of a walk.
pub open spec fn found_then(front: Seq<Found>, rest: Pk2Result<Seq<Found>>) -> Pk2Result<
    Seq<Found>,
> {
    match rest {
        Ok(more) => Ok(front + more),
        Err(e) => Err(e),
    }
}

/// The files that a walk meets. The directory that was put on the list of
/// pending directories last is visited first: its files are met in the
/// order of their entries, and its directories join the list, so that the
/// last of them is visited next. A directory whose chain the archive lacks
/// is `InvalidChainIndex`. No more than `budget` directories are visited: a
/// walk that would need more, as one does that is led in a circle, is
/// `MalformedChain`.
pub open spec fn spec_walk(chains: ChainsView, pending: Seq<Pending>, budget: nat) -> Pk2Result<
    Seq<Found>,
>
    decreases budget,
{
    if pending.len() == 0 {
        Ok(Seq::empty())
    } else if budget == 0 {
        Err(Error::MalformedChain)
    } else if !chains.contains_key(pending.last().chain) {
        Err(Error::InvalidChainIndex)
    } else {
        let entries = chain_entries(chains[pending.last().chain]);
        found_then(
            files_in(entries, pending.last().chain, pending.last().path),
            spec_walk(
                chains,
                pending.drop_last() + dirs_in(entries, pending.last().path),
                (budget - 1) as nat,
            ),
        )
    }
}

/// The files below the directory that `base` names, each with its path from
/// that directory. As many directories are visited as the archive has
/// chains, at most.
pub open spec fn spec_files_below(chains: ChainsView, base: Seq<u8>) -> Pk2Result<Seq<Found>> {
    match spec_open_directory(chains, base) {
        Err(e) => Err(e),
        Ok((chain, idx)) => {
            let children = if chain == crate::constants::PK2_ROOT_BLOCK_VIRTUAL {
                crate::constants::PK2_ROOT_BLOCK
            } else {
                chain_entries(chains[chain])[idx]->Directory_0.pos_children
            };
            spec_walk(chains, seq![Pending { chain: children, path: Seq::empty() }], chains.dom().len())
        },
    }
}

/// Whether every path of a walk is text.
pub open spec fn all_text(found: Seq<Found>) -> bool {
    forall|i: int| 0 <= i < found.len() ==> spec_is_text(#[trigger] found[i].path)
}

proof fn lemma_files_in_push(entries: Seq<PackEntryView>, chain: u64, prefix: Seq<u8>, n: int)
    requires
        0 <= n < entries.len(),
    ensures
        files_in(entries.subrange(0, n + 1), chain, prefix) == files_in(
            entries.subrange(0, n),
            chain,
            prefix,
        ) + (match entries[n] {
            PackEntryView::File(f) => seq![Found { path: spec_join(prefix, f.name), chain, idx: n }],
            _ => Seq::<Found>::empty(),
        }),
{
    let upto = entries.subrange(0, n + 1);
    assert(upto.drop_last() =~= entries.subrange(0, n));
    assert(upto.last() == entries[n]);
}

proof fn lemma_dirs_in_push(entries: Seq<PackEntryView>, prefix: Seq<u8>, n: int)
    requires
        0 <= n < entries.len(),
    ensures
        dirs_in(entries.subrange(0, n + 1), prefix) == dirs_in(entries.subrange(0, n), prefix) + (
        match entries[n] {
            PackEntryView::Directory(d) if d.is_normal_link() => seq![
                Pending { chain: d.pos_children, path: spec_join(prefix, d.name) },
            ],
            _ => Seq::<Pending>::empty(),
        }),
{
    let upto = entries.subrange(0, n + 1);
    assert(upto.drop_last() =~= entries.subrange(0, n));
    assert(upto.last() == entries[n]);
}

/// A file met on a walk, as the walk holds it.
pub struct FoundFile {
    pub path: Vec<u8>,
    pub chain: ChainIndex,
    pub idx: usize,
}

impl View for FoundFile {
    type V = Found;

    open spec fn view(&self) -> Found {
        Found { path: self.path@, chain: self.chain.0, idx: self.idx as int }
    }
}

/// A directory that a walk has yet to visit, as the walk holds it.
pub struct PendingDir {
    pub chain: ChainIndex,
    pub path: Vec<u8>,
}

impl View for PendingDir {
    type V = Pending;

    open spec fn view(&self) -> Pending {
        Pending { chain: self.chain.0, path: self.path@ }
    }
}

/// What a list of files holds.
pub open spec fn found_view(list: Seq<FoundFile>) -> Seq<Found> {
    Seq::new(list.len(), |i: int| list[i]@)
}

/// What a list of directories holds.
pub open spec fn pending_view(list: Seq<PendingDir>) -> Seq<Pending> {
    Seq::new(list.len(), |i: int| list[i]@)
}

impl Pk2 {
    /// Visits the directory `dir`: its files join `out`, its directories
    /// join `stack`.
    #[verifier::spinoff_prover]
    fn visit(&self, dir: &PendingDir, out: &mut Vec<FoundFile>, stack: &mut Vec<PendingDir>) -> (r:
        Pk2Result<()>)
        requires
            self.wf(),
            forall|k: int|
                0 <= k < old(out)@.len() ==> is_file_at(
                    self@.chains,
                    (#[trigger] old(out)@[k]).chain.0,
                    old(out)@[k].idx as int,
                ),
        ensures
            match r {
                Ok(_) => {
                    let entries = chain_entries(self@.chains[dir.chain.0]);
                    &&& self@.chains.contains_key(dir.chain.0)
                    &&& found_view(final(out)@) == found_view(old(out)@) + files_in(
                        entries,
                        dir.chain.0,
                        dir.path@,
                    )
                    &&& pending_view(final(stack)@) == pending_view(old(stack)@) + dirs_in(
                        entries,
                        dir.path@,
                    )
                },
                Err(e) => !self@.chains.contains_key(dir.chain.0) && e == Error::InvalidChainIndex
                    && final(out)@ == old(out)@ && final(stack)@ == old(stack)@,
            },
            forall|k: int|
                0 <= k < final(out)@.len() ==> is_file_at(
                    self@.chains,
                    (#[trigger] final(out)@[k]).chain.0,
                    final(out)@[k].idx as int,
                ),
    {
        let chain = match self.get_chain(dir.chain) {
            Some(chain) => chain,
            None => {
                return Err(Error::InvalidChainIndex);
            },
        };
        let ghost entries = chain_entries(chain@);
        let total = chain.num_entries();
        let mut i: usize = 0;
        assert(entries.subrange(0, 0) =~= Seq::<PackEntryView>::empty());
        assert(found_view(out@) + Seq::<Found>::empty() =~= found_view(out@));
        assert(pending_view(stack@) + Seq::<Pending>::empty() =~= pending_view(stack@));
        while i < total
            invariant
                i <= total,
                self.wf(),
                chain.wf(),
                self@.chains.contains_key(dir.chain.0),
                chain@ == self@.chains[dir.chain.0],
                entries == chain_entries(chain@),
                total == entries.len(),
                found_view(out@) == found_view(old(out)@) + files_in(
                    entries.subrange(0, i as int),
                    dir.chain.0,
                    dir.path@,
                ),
                pending_view(stack@) == pending_view(old(stack)@) + dirs_in(
                    entries.subrange(0, i as int),
                    dir.path@,
                ),
                forall|k: int|
                    0 <= k < out@.len() ==> is_file_at(
                    self@.chains,
                    (#[trigger] out@[k]).chain.0,
                    out@[k].idx as int,
                ),
            decreases total - i,
        {
            proof {
                lemma_files_in_push(entries, dir.chain.0, dir.path@, i as int);
                lemma_dirs_in_push(entries, dir.path@, i as int);
            }
            let ghost files_before = found_view(out@);
            let ghost dirs_before = pending_view(stack@);
            match chain.get(i) {
                Some(PackEntry::File(f)) => {
                    let item = FoundFile {
                        path: join(dir.path.as_slice(), f.name()),
                        chain: dir.chain,
                        idx: i,
                    };
                    out.push(item);
                    assert(found_view(out@) =~= files_before + seq![item@]);
                    assert(files_before + seq![item@] =~= found_view(old(out)@) + files_in(
                        entries.subrange(0, i + 1),
                        dir.chain.0,
                        dir.path@,
                    ));
                    assert(dirs_before + Seq::<Pending>::empty() =~= dirs_before);
                },
                Some(PackEntry::Directory(d)) => {
                    if d.is_normal_link() {
                        let item = PendingDir {
                            chain: d.children_position(),
                            path: join(dir.path.as_slice(), d.name()),
                        };
                        stack.push(item);
                        assert(pending_view(stack@) =~= dirs_before + seq![item@]);
                        assert(dirs_before + seq![item@] =~= pending_view(old(stack)@) + dirs_in(
                            entries.subrange(0, i + 1),
                            dir.path@,
                        ));
                    } else {
                        assert(dirs_before + Seq::<Pending>::empty() =~= dirs_before);
                    }
                    assert(files_before + Seq::<Found>::empty() =~= files_before);
                },
                _ => {
                    assert(files_before + Seq::<Found>::empty() =~= files_before);
                    assert(dirs_before + Seq::<Pending>::empty() =~= dirs_before);
                },
            }
            i += 1;
        }
        assert(entries.subrange(0, total as int) =~= entries);
        Ok(())
    }

    /// Walks through the directories in `stack`, the last first, and
    /// visits no more than `budget` of them.
    #[verifier::spinoff_prover]
    fn walk(&self, start: PendingDir, budget: usize) -> (r: Pk2Result<Vec<FoundFile>>)
        requires
            self.wf(),
        ensures
            match r {
                Ok(list) => spec_walk(self@.chains, seq![start@], budget as nat) == Ok::<
                    Seq<Found>,
                    Error,
                >(found_view(list@)) && forall|k: int|
                    0 <= k < list@.len() ==> is_file_at(
                    self@.chains,
                    (#[trigger] list@[k]).chain.0,
                    list@[k].idx as int,
                ),
                Err(e) => spec_walk(self@.chains, seq![start@], budget as nat) == Err::<
                    Seq<Found>,
                    Error,
                >(e),
            },
    {
        let mut out: Vec<FoundFile> = Vec::new();
        let mut stack: Vec<PendingDir> = Vec::new();
        let ghost first = start@;
        stack.push(start);
        let mut left: usize = budget;
        let ghost goal = spec_walk(self@.chains, seq![first], budget as nat);
        assert(pending_view(stack@) =~= seq![first]);
        assert(found_view(out@) =~= Seq::<Found>::empty());
        assert(forall|rest: Seq<Found>| #[trigger] (Seq::<Found>::empty() + rest) =~= rest);
        while stack.len() > 0
            invariant
                self.wf(),
                first == start@,
                goal == spec_walk(self@.chains, seq![first], budget as nat),
                goal == found_then(
                    found_view(out@),
                    spec_walk(self@.chains, pending_view(stack@), left as nat),
                ),
                forall|k: int|
                    0 <= k < out@.len() ==> is_file_at(
                    self@.chains,
                    (#[trigger] out@[k]).chain.0,
                    out@[k].idx as int,
                ),
            decreases left,
        {
            if left == 0 {
                return Err(Error::MalformedChain);
            }
            let ghost pending = pending_view(stack@);
            let ghost before = found_view(out@);
            let dir = match stack.pop() {
                Some(dir) => dir,
                None => {
                    return Err(Error::MalformedChain);
                },
            };
            assert(pending_view(stack@) =~= pending.drop_last());
            assert(dir@ == pending.last());
            match self.visit(&dir, &mut out, &mut stack) {
                Ok(_) => {},
                Err(e) => {
                    return Err(e);
                },
            }
            left -= 1;
            proof {
                let entries = chain_entries(self@.chains[dir.chain.0]);
                let here = files_in(entries, dir.chain.0, dir.path@);
                let rest = spec_walk(self@.chains, pending_view(stack@), left as nat);
                assert(found_view(out@) == before + here);
                if rest is Ok {
                    assert(before + (here + rest->Ok_0) =~= (before + here) + rest->Ok_0);
                }
            }
        }
        assert(found_view(out@) + Seq::<Found>::empty() =~= found_view(out@));
        Ok(out)
    }

    /// The files below the directory that `base` names: each with its path
    /// from that directory, as text, and a handle on it. The files of a
    /// directory come in the order of their entries, and before the files of
    /// the directories in it; of those directories the last comes first.
    ///
    /// `NonUnicodePath` where the path of a file is not text.
    #[verifier::spinoff_prover]
    pub fn for_each_file<'a>(&'a self, base: &str) -> (r: Pk2Result<Vec<(String, File<'a>)>>)
        requires
            self.wf(),
        ensures
            match r {
                Ok(list) => {
                    &&& spec_files_below(self@.chains, base.spec_bytes()) is Ok
                    &&& all_text(spec_files_below(self@.chains, base.spec_bytes())->Ok_0)
                    &&& list@.len() == spec_files_below(self@.chains, base.spec_bytes())->Ok_0.len()
                    &&& forall|i: int|
                        0 <= i < list@.len() ==> {
                            let found = spec_files_below(self@.chains, base.spec_bytes())->Ok_0[i];
                            let item = #[trigger] list@[i];
                            &&& encode_utf8(item.0@) == found.path
                            &&& item.1.spec_archive() == self
                            &&& item.1.spec_chain().0 == found.chain
                            &&& item.1.spec_entry_index() == found.idx
                            &&& item.1.wf()
                        }
                },
                Err(e) => match spec_files_below(self@.chains, base.spec_bytes()) {
                    Err(cause) => e == cause,
                    Ok(found) => !all_text(found) && e == Error::NonUnicodePath,
                },
            },
    {
        let dir = match self.open_directory(base) {
            Ok(dir) => dir,
            Err(e) => {
                return Err(e);
            },
        };
        let start = PendingDir { chain: dir.pos_children(), path: Vec::new() };
        assert(start.path@ =~= Seq::<u8>::empty());
        let budget = self.chain_count();
        let mut found = match self.walk(start, budget) {
            Ok(found) => found,
            Err(e) => {
                return Err(e);
            },
        };
        let ghost all = found_view(found@);
        let mut list: Vec<(String, File<'a>)> = Vec::new();
        let total = found.len();
        let mut i: usize = 0;
        while i < total
            invariant
                i <= total,
                self.wf(),
                total == found@.len(),
                all == found_view(found@),
                spec_files_below(self@.chains, base.spec_bytes()) == Ok::<Seq<Found>, Error>(all),
                list@.len() == i,
                forall|k: int|
                    0 <= k < found@.len() ==> is_file_at(
                    self@.chains,
                    (#[trigger] found@[k]).chain.0,
                    found@[k].idx as int,
                ),
                forall|k: int| 0 <= k < i ==> spec_is_text(#[trigger] all[k].path),
                forall|k: int|
                    0 <= k < i ==> {
                        let item = #[trigger] list@[k];
                        &&& encode_utf8(item.0@) == all[k].path
                        &&& item.1.spec_archive() == self
                        &&& item.1.spec_chain().0 == all[k].chain
                        &&& item.1.spec_entry_index() == all[k].idx
                        &&& item.1.wf()
                    },
            decreases total - i,
        {
            let path = crate::bytes::copy_range(found[i].path.as_slice(), 0, found[i].path.len());
            assert(path@ =~= all[i as int].path);
            let text = match to_text(path) {
                Ok(text) => text,
                Err(e) => {
                    assert(!spec_is_text(all[i as int].path));
                    return Err(e);
                },
            };
            let file = File::new(self, found[i].chain, found[i].idx);
            list.push((text, file));
            i += 1;
        }
        Ok(list)
    }
}

} // verus!
