//! The organizer as a whole: what one full run promises across its scan,
//! move and cleanup phases.

use vstd::prelude::*;
use crate::config::ConfigModel;
use crate::place::{
    plan_places_s, task_served, DestModel, PlacementModel, lemma_placements_sound,
    lemma_tasks_accounted,
};
use crate::scan::{
    classify_s, lemma_classify_in_categories, lemma_plan_moves_complete, lemma_plan_moves_sound,
    lemma_settled_scan_empty, plan_moves_s, scanned_path, skip_names, TaskModel,
};
use crate::tree::{any_component_in, FileEntry};

verus! {

/// The placements one organize run resolves for `files`, against the
/// slots already occupied in the category folders.
pub open spec fn organize_placements(
    files: Seq<FileEntry>,
    existing: Seq<DestModel>,
    cfg: ConfigModel,
) -> Seq<PlacementModel> {
    plan_places_s(plan_moves_s(files, cfg), existing).placements
}

/// After organizing, every file the scan reaches is accounted for: the
/// run either resolves a placement that carries the file into the folder
/// of its category, or reports the move as failed.
pub proof fn lemma_organize_places_every_file(
    files: Seq<FileEntry>,
    existing: Seq<DestModel>,
    cfg: ConfigModel,
    i: int,
)
    requires
        0 <= i < files.len(),
        scanned_path(files[i].path_v(), cfg),
    ensures
        task_served(
            plan_places_s(plan_moves_s(files, cfg), existing),
            TaskModel { source: files[i].path_v(), category: classify_s(files[i].name_v(), cfg) },
        ),
{
    lemma_plan_moves_complete(files, cfg, i);
    let tasks = plan_moves_s(files, cfg);
    let t = TaskModel { source: files[i].path_v(), category: classify_s(files[i].name_v(), cfg) };
    let j = choose|j: int| 0 <= j < tasks.len() && tasks[j] == t;
    lemma_tasks_accounted(tasks, existing, j);
}

/// Every placement of a run goes into one of the category folders.
pub proof fn lemma_placement_categories(
    files: Seq<FileEntry>,
    existing: Seq<DestModel>,
    cfg: ConfigModel,
    i: int,
)
    requires
        0 <= i < organize_placements(files, existing, cfg).len(),
    ensures
        cfg.categories().contains(organize_placements(files, existing, cfg)[i].category),
{
    let tasks = plan_moves_s(files, cfg);
    lemma_placements_sound(tasks, existing, i);
    let w = choose|w: int|
        0 <= w < tasks.len() && (#[trigger] tasks[w]).source == organize_placements(
            files,
            existing,
            cfg,
        )[i].source && tasks[w].category == organize_placements(files, existing, cfg)[i].category;
    lemma_plan_moves_sound(files, cfg, tasks[w]);
    let x = choose|x: int|
        0 <= x < files.len() && scanned_path(#[trigger] files[x].path_v(), cfg) && tasks[w].source
            == files[x].path_v() && tasks[w].category == classify_s(files[x].name_v(), cfg);
    lemma_classify_in_categories(files[x].name_v(), cfg);
}

/// A path that sits exactly where some placement put it: directly inside
/// that placement's category folder, under its resolved name.
pub open spec fn at_destination(path: Seq<Seq<char>>, ps: Seq<PlacementModel>) -> bool {
    exists|i: int| 0 <= i < ps.len() && path == seq![(#[trigger] ps[i]).category, ps[i].name]
}

/// Organizing is idempotent. After a run, every file either sits at the
/// destination a placement gave it — directly inside a category folder —
/// or was out of the scan's reach to begin with and has not moved. A
/// second scan of such a tree reaches no file and records no move.
pub proof fn lemma_organize_idempotent(
    files: Seq<FileEntry>,
    existing: Seq<DestModel>,
    cfg: ConfigModel,
    files2: Seq<FileEntry>,
)
    requires
        forall|j: int|
            0 <= j < files2.len() ==> at_destination(
                (#[trigger] files2[j]).path_v(),
                organize_placements(files, existing, cfg),
            ) || !scanned_path(files2[j].path_v(), cfg),
    ensures
        plan_moves_s(files2, cfg) =~= Seq::<TaskModel>::empty(),
{
    let ps = organize_placements(files, existing, cfg);
    assert forall|j: int| 0 <= j < files2.len() implies !scanned_path(
        #[trigger] files2[j].path_v(),
        cfg,
    ) by {
        if at_destination(files2[j].path_v(), ps) {
            let i = choose|i: int|
                0 <= i < ps.len() && files2[j].path_v() == seq![
                    (#[trigger] ps[i]).category,
                    ps[i].name,
                ];
            lemma_placement_categories(files, existing, cfg, i);
            let path = files2[j].path_v();
            assert(path[0] == ps[i].category);
            assert(path.len() == 2);
            let c = choose|c: int|
                0 <= c < cfg.categories().len() && cfg.categories()[c] == ps[i].category;
            assert(skip_names(cfg)[cfg.ignore_dirs.len() + c] == ps[i].category);
            assert(skip_names(cfg).contains(path[0]));
            assert(any_component_in(path, skip_names(cfg)));
        }
    }
    lemma_settled_scan_empty(files2, cfg);
}

} // verus!
