//! The pruning pass: decide which files fall below the size threshold and
//! are safe to delete, and account for the bytes that frees.

use vstd::prelude::*;
use crate::config::{Config, ConfigModel};
use crate::tree::{any_component_in, any_dir_component_in, contains_name, FileEntry};

verus! {

/// A file is pruned exactly when it is strictly below the threshold, is not
/// under any ignored directory, and is not itself an ignored file name.
pub open spec fn prunable(f: FileEntry, cfg: ConfigModel) -> bool {
    &&& f.size < cfg.min_size
    &&& !any_component_in(f.path_v(), cfg.ignore_dirs)
    &&& !cfg.ignore_files.contains(f.name_v())
}

/// `prunable` as a predicate value, for filtering.
pub open spec fn prunable_at(cfg: ConfigModel) -> spec_fn(FileEntry) -> bool {
    |f: FileEntry| prunable(f, cfg)
}

/// The complement of `prunable`, for the kept partition.
pub open spec fn keepable_at(cfg: ConfigModel) -> spec_fn(FileEntry) -> bool {
    |f: FileEntry| !prunable(f, cfg)
}

/// Decides whether one file is pruned.
pub fn should_prune(f: &FileEntry, cfg: &Config) -> (r: bool)
    requires
        f.wf(),
    ensures
        r == prunable(*f, cfg@),
{
    if f.size >= cfg.min_size {
        return false;
    }
    if any_dir_component_in(&f.path, &cfg.ignore_dirs) {
        return false;
    }
    let name = &f.path[f.path.len() - 1];
    proof {
        assert(f.path.deep_view().last() == name@);
    }
    if contains_name(&cfg.ignore_files, name) {
        return false;
    }
    true
}

/// The two halves of a pruning pass: the files to delete and the files kept.
pub struct PruneOutcome {
    pub to_delete: Vec<FileEntry>,
    pub kept: Vec<FileEntry>,
}

/// Splits the scanned files into those the pass deletes and those it keeps,
/// both in scan order.
pub fn plan_prune(files: Vec<FileEntry>, cfg: &Config) -> (r: PruneOutcome)
    requires
        forall|i: int| 0 <= i < files@.len() ==> (#[trigger] files@[i]).wf(),
    ensures
        r.to_delete@ == files@.filter(prunable_at(cfg@)),
        r.kept@ == files@.filter(keepable_at(cfg@)),
{
    let ghost all = files@;
    let mut rest = files;
    let mut to_delete: Vec<FileEntry> = Vec::new();
    let mut kept: Vec<FileEntry> = Vec::new();
    proof {
        assert(all.take(0).filter(prunable_at(cfg@)) =~= Seq::<FileEntry>::empty()) by {
            reveal(Seq::filter);
        }
        assert(all.take(0).filter(keepable_at(cfg@)) =~= Seq::<FileEntry>::empty()) by {
            reveal(Seq::filter);
        }
    }
    while rest.len() > 0
        invariant
            rest@.len() <= all.len(),
            rest@ =~= all.skip(all.len() - rest@.len()),
            forall|i: int| 0 <= i < all.len() ==> (#[trigger] all[i]).wf(),
            to_delete@ == all.take(all.len() - rest@.len()).filter(prunable_at(cfg@)),
            kept@ == all.take(all.len() - rest@.len()).filter(keepable_at(cfg@)),
        decreases rest@.len(),
    {
        let ghost idx = all.len() - rest@.len();
        let f = rest.remove(0);
        proof {
            assert(f == all[idx]);
            assert(rest@ =~= all.skip(idx + 1));
            assert(all.take(idx + 1) =~= all.take(idx).push(all[idx]));
            Seq::lemma_filter_push(all.take(idx), all[idx], prunable_at(cfg@));
            Seq::lemma_filter_push(all.take(idx), all[idx], keepable_at(cfg@));
        }
        if should_prune(&f, cfg) {
            to_delete.push(f);
        } else {
            kept.push(f);
        }
    }
    proof {
        assert(all.take(all.len() as int) =~= all);
    }
    PruneOutcome { to_delete, kept }
}

/// The total size of a list of files, in bytes.
pub open spec fn sum_sizes(files: Seq<FileEntry>) -> int
    decreases files.len(),
{
    if files.len() == 0 {
        0
    } else {
        sum_sizes(files.drop_last()) + files.last().size
    }
}

proof fn lemma_sum_sizes_bound(files: Seq<FileEntry>)
    ensures
        0 <= sum_sizes(files) <= files.len() * (u64::MAX as int),
    decreases files.len(),
{
    if files.len() == 0 {
    } else {
        lemma_sum_sizes_bound(files.drop_last());
        assert((files.len() - 1) * (u64::MAX as int) + (u64::MAX as int) == files.len() * (
        u64::MAX as int)) by (nonlinear_arith);
    }
}

/// Adds up the sizes of `files`; the accumulator is wide enough that the
/// sum of any addressable number of files fits.
pub fn total_size(files: &Vec<FileEntry>) -> (r: u128)
    ensures
        r == sum_sizes(files@),
{
    let mut acc: u128 = 0;
    let mut i: usize = 0;
    while i < files.len()
        invariant
            i <= files@.len(),
            acc == sum_sizes(files@.take(i as int)),
        decreases files@.len() - i,
    {
        proof {
            lemma_sum_sizes_bound(files@.take(i as int));
            assert((i as int) * (u64::MAX as int) + (u64::MAX as int) == (i + 1) * (u64::MAX
                as int)) by (nonlinear_arith);
            assert((i + 1) * (u64::MAX as int) <= (u64::MAX as int) * (u64::MAX as int))
                by (nonlinear_arith)
                requires
                    0 <= i + 1 <= u64::MAX as int,
            ;
            assert((u64::MAX as int) * (u64::MAX as int) < u128::MAX as int)
                by (nonlinear_arith);
            assert(files@.take(i + 1).drop_last() =~= files@.take(i as int));
        }
        acc = acc + (files[i].size as u128);
        i = i + 1;
    }
    proof {
        assert(files@.take(files@.len() as int) =~= files@);
    }
    acc
}

/// The two halves of the pruning pass account for every scanned file:
/// together they are exactly as many as went in.
pub proof fn lemma_prune_partitions(files: Seq<FileEntry>, cfg: ConfigModel)
    ensures
        files.filter(prunable_at(cfg)).len() + files.filter(keepable_at(cfg)).len()
            == files.len(),
    decreases files.len(),
{
    reveal(Seq::filter);
    if files.len() > 0 {
        lemma_prune_partitions(files.drop_last(), cfg);
    }
}

/// Pruning deletes every file that is strictly below the threshold and not
/// protected: such a file always stands in the deletion half.
pub proof fn lemma_prune_deletes_small(files: Seq<FileEntry>, cfg: ConfigModel, f: FileEntry)
    requires
        files.contains(f),
        prunable(f, cfg),
    ensures
        files.filter(prunable_at(cfg)).contains(f),
        !files.filter(keepable_at(cfg)).contains(f),
{
    let i = choose|i: int| 0 <= i < files.len() && files[i] == f;
    Seq::lemma_filter_contains(files, prunable_at(cfg), i);
    if files.filter(keepable_at(cfg)).contains(f) {
        let j = choose|j: int|
            0 <= j < files.filter(keepable_at(cfg)).len() && files.filter(keepable_at(cfg))[j]
                == f;
        Seq::lemma_filter_pred(files, keepable_at(cfg), j);
    }
}

/// Pruning keeps every file at or above the threshold: such a file is never
/// in the deletion half, and always in the kept half.
pub proof fn lemma_prune_keeps_large(files: Seq<FileEntry>, cfg: ConfigModel, f: FileEntry)
    requires
        files.contains(f),
        f.size >= cfg.min_size,
    ensures
        !files.filter(prunable_at(cfg)).contains(f),
        files.filter(keepable_at(cfg)).contains(f),
{
    let i = choose|i: int| 0 <= i < files.len() && files[i] == f;
    Seq::lemma_filter_contains(files, keepable_at(cfg), i);
    if files.filter(prunable_at(cfg)).contains(f) {
        let j = choose|j: int|
            0 <= j < files.filter(prunable_at(cfg)).len() && files.filter(prunable_at(cfg))[j]
                == f;
        Seq::lemma_filter_pred(files, prunable_at(cfg), j);
    }
}

/// Pruning never deletes a file under an ignored directory, nor one whose
/// name is ignored, whatever its size.
pub proof fn lemma_prune_spares_ignored(files: Seq<FileEntry>, cfg: ConfigModel, f: FileEntry)
    requires
        files.contains(f),
        any_component_in(f.path_v(), cfg.ignore_dirs) || cfg.ignore_files.contains(f.name_v()),
    ensures
        !files.filter(prunable_at(cfg)).contains(f),
        files.filter(keepable_at(cfg)).contains(f),
{
    let i = choose|i: int| 0 <= i < files.len() && files[i] == f;
    Seq::lemma_filter_contains(files, keepable_at(cfg), i);
    if files.filter(prunable_at(cfg)).contains(f) {
        let j = choose|j: int|
            0 <= j < files.filter(prunable_at(cfg)).len() && files.filter(prunable_at(cfg))[j]
                == f;
        Seq::lemma_filter_pred(files, prunable_at(cfg), j);
    }
}

} // verus!
