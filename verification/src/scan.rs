//! The organizer's scan: classify every reachable file by its lower-cased
//! extension and record one move task per file, in traversal order.

use vstd::prelude::*;
use vstd::string::*;
use crate::config::{Config, ConfigModel};
use crate::names::{ext_of, find_last_dot, has_ext, last_dot, lower_matches, lower_seq};
use crate::tree::{any_component_in, any_dir_component_in, contains_name, FileEntry};

verus! {

/// The category a file name falls in: its lower-cased extension when that
/// is in the table, the default category otherwise.
pub open spec fn classify_s(name: Seq<char>, cfg: ConfigModel) -> Seq<char> {
    if has_ext(name) && cfg.known_exts.contains(lower_seq(ext_of(name))) {
        lower_seq(ext_of(name))
    } else {
        cfg.default_cat
    }
}

/// Every file classifies into one of the category folders.
pub proof fn lemma_classify_in_categories(name: Seq<char>, cfg: ConfigModel)
    ensures
        cfg.categories().contains(classify_s(name, cfg)),
{
    if has_ext(name) && cfg.known_exts.contains(lower_seq(ext_of(name))) {
        let i = choose|i: int|
            0 <= i < cfg.known_exts.len() && cfg.known_exts[i] == lower_seq(ext_of(name));
        assert(cfg.categories()[i] == lower_seq(ext_of(name)));
    } else {
        assert(cfg.categories().last() == cfg.default_cat);
    }
}

/// Computes the category folder for one file name.
pub fn classify(name: &String, cfg: &Config) -> (r: String)
    ensures
        r@ == classify_s(name@, cfg@),
{
    let s = name.as_str();
    let n = s.unicode_len();
    match find_last_dot(s) {
        Some(i) if i >= 1 => {
            let ext = s.substring_char(i + 1, n);
            assert(ext@ == ext_of(name@));
            let mut j: usize = 0;
            while j < cfg.known_exts.len()
                invariant
                    j <= cfg.known_exts@.len(),
                    ext@ == ext_of(name@),
                    last_dot(name@) == i,
                    i >= 1,
                    forall|t: int|
                        0 <= t < j ==> cfg.known_exts.deep_view()[t] != lower_seq(ext@),
                decreases cfg.known_exts@.len() - j,
            {
                if lower_matches(ext, cfg.known_exts[j].as_str()) {
                    let r = cfg.known_exts[j].clone();
                    proof {
                        assert(cfg.known_exts.deep_view()[j as int] == cfg.known_exts@[
                        j as int]@);
                        assert(cfg@.known_exts.contains(lower_seq(ext_of(name@))));
                        assert(has_ext(name@));
                    }
                    return r;
                }
                proof {
                    assert(cfg.known_exts.deep_view()[j as int] == cfg.known_exts@[j as int]@);
                }
                j = j + 1;
            }
            proof {
                assert forall|t: int| 0 <= t < cfg@.known_exts.len() implies cfg@.known_exts[t]
                    != lower_seq(ext_of(name@)) by {
                    assert(cfg.known_exts.deep_view()[t] == cfg.known_exts@[t]@);
                }
            }
            cfg.default_cat.clone()
        },
        _ => {
            cfg.default_cat.clone()
        },
    }
}

/// The directory names the scan never descends into: the ignored
/// infrastructure names and every category folder name.
pub open spec fn skip_names(cfg: ConfigModel) -> Seq<Seq<char>> {
    cfg.ignore_dirs + cfg.categories()
}

/// A file takes part in the scan when no directory on its path is skipped
/// and its own name is not reserved.
pub open spec fn scanned_path(path: Seq<Seq<char>>, cfg: ConfigModel) -> bool {
    &&& !any_component_in(path, skip_names(cfg))
    &&& !cfg.ignore_files.contains(path.last())
}

/// One planned move: a source file and the category folder it goes to.
pub struct MoveTask {
    pub source: Vec<String>,
    pub category: String,
}

/// Ghost model of a [`MoveTask`].
pub struct TaskModel {
    pub source: Seq<Seq<char>>,
    pub category: Seq<char>,
}

impl View for MoveTask {
    type V = TaskModel;

    open spec fn view(&self) -> TaskModel {
        TaskModel { source: self.source.deep_view(), category: self.category@ }
    }
}

impl DeepView for MoveTask {
    type V = TaskModel;

    open spec fn deep_view(&self) -> TaskModel {
        self.view()
    }
}

impl TaskModel {
    /// The file name of the task's source.
    pub open spec fn name_v(self) -> Seq<char> {
        self.source.last()
    }
}

/// The move tasks a scan of `files` records, in order: one task per file
/// that the scan reaches, carrying its category.
pub open spec fn plan_moves_s(files: Seq<FileEntry>, cfg: ConfigModel) -> Seq<TaskModel>
    decreases files.len(),
{
    if files.len() == 0 {
        Seq::<TaskModel>::empty()
    } else {
        let rest = plan_moves_s(files.drop_last(), cfg);
        let f = files.last();
        if scanned_path(f.path_v(), cfg) {
            rest.push(
                TaskModel { source: f.path_v(), category: classify_s(f.name_v(), cfg) },
            )
        } else {
            rest
        }
    }
}

/// Decides whether the scan reaches one file.
pub fn scan_reaches(f: &FileEntry, skip_list: &Vec<String>, cfg: &Config) -> (r: bool)
    requires
        f.wf(),
        skip_list.deep_view() == skip_names(cfg@),
    ensures
        r == scanned_path(f.path_v(), cfg@),
{
    if any_dir_component_in(&f.path, skip_list) {
        return false;
    }
    let name = &f.path[f.path.len() - 1];
    proof {
        assert(f.path.deep_view().last() == name@);
    }
    if contains_name(&cfg.ignore_files, name) {
        return false;
    }
    true
}

/// Builds the list of directory names the scan skips.
pub fn skip_list_of(cfg: &Config) -> (r: Vec<String>)
    ensures
        r.deep_view() == skip_names(cfg@),
{
    let mut r = cfg.ignore_dirs.clone();
    assert(r@ =~= cfg.ignore_dirs@);
    let mut cats = cfg.category_folders();
    let ghost cats_v = cats.deep_view();
    r.append(&mut cats);
    proof {
        assert forall|j: int| 0 <= j < r.deep_view().len() implies r.deep_view()[j] == skip_names(
            cfg@,
        )[j] by {
            assert(r.deep_view()[j] == r@[j]@);
            if j < cfg.ignore_dirs@.len() {
                assert(r@[j] == cfg.ignore_dirs@[j]);
            } else {
                assert(r@[j]@ == cats_v[j - cfg.ignore_dirs@.len()]);
            }
        }
        assert(r.deep_view() =~= skip_names(cfg@));
    }
    r
}

/// Scans `files` in order and records a move task for every file the scan
/// reaches, classified by extension.
pub fn plan_moves(files: Vec<FileEntry>, cfg: &Config) -> (r: Vec<MoveTask>)
    requires
        forall|i: int| 0 <= i < files@.len() ==> (#[trigger] files@[i]).wf(),
    ensures
        r.deep_view() == plan_moves_s(files@, cfg@),
{
    let skip_list = skip_list_of(cfg);
    let ghost all = files@;
    let mut rest = files;
    let mut r: Vec<MoveTask> = Vec::new();
    while rest.len() > 0
        invariant
            rest@.len() <= all.len(),
            rest@ =~= all.skip(all.len() - rest@.len()),
            forall|i: int| 0 <= i < all.len() ==> (#[trigger] all[i]).wf(),
            skip_list.deep_view() == skip_names(cfg@),
            r.deep_view() =~= plan_moves_s(all.take(all.len() - rest@.len()), cfg@),
        decreases rest@.len(),
    {
        let ghost idx = all.len() - rest@.len();
        let f = rest.remove(0);
        proof {
            assert(f == all[idx]);
            assert(rest@ =~= all.skip(idx + 1));
            assert(all.take(idx + 1).drop_last() =~= all.take(idx));
            assert(all.take(idx + 1).last() == all[idx]);
        }
        if scan_reaches(&f, &skip_list, cfg) {
            let name = &f.path[f.path.len() - 1];
            proof {
                assert(f.path.deep_view().last() == name@);
            }
            let category = classify(name, cfg);
            let ghost old_r = r.deep_view();
            let task = MoveTask { source: f.path, category };
            r.push(task);
            proof {
                assert(r.deep_view() =~= old_r.push(task@));
            }
        }
    }
    proof {
        assert(all.take(all.len() as int) =~= all);
    }
    r
}

/// Every file the scan reaches yields exactly its task: source path kept,
/// category given by the classification table.
pub proof fn lemma_plan_moves_complete(files: Seq<FileEntry>, cfg: ConfigModel, i: int)
    requires
        0 <= i < files.len(),
        scanned_path(files[i].path_v(), cfg),
    ensures
        plan_moves_s(files, cfg).contains(
            TaskModel {
                source: files[i].path_v(),
                category: classify_s(files[i].name_v(), cfg),
            },
        ),
    decreases files.len(),
{
    let t = TaskModel { source: files[i].path_v(), category: classify_s(files[i].name_v(), cfg) };
    if i == files.len() - 1 {
        assert(plan_moves_s(files, cfg).last() == t);
    } else {
        assert(files.drop_last()[i] == files[i]);
        lemma_plan_moves_complete(files.drop_last(), cfg, i);
        let rest = plan_moves_s(files.drop_last(), cfg);
        let j = choose|j: int| 0 <= j < rest.len() && rest[j] == t;
        assert(plan_moves_s(files, cfg)[j] == t);
    }
}

/// Every recorded task comes from a file the scan reaches, with its path
/// and its classification.
pub proof fn lemma_plan_moves_sound(files: Seq<FileEntry>, cfg: ConfigModel, t: TaskModel)
    requires
        plan_moves_s(files, cfg).contains(t),
    ensures
        exists|i: int|
            0 <= i < files.len() && scanned_path(#[trigger] files[i].path_v(), cfg) && t.source
                == files[i].path_v() && t.category == classify_s(files[i].name_v(), cfg),
    decreases files.len(),
{
    if files.len() == 0 {
    } else {
        let rest = plan_moves_s(files.drop_last(), cfg);
        let f = files.last();
        if scanned_path(f.path_v(), cfg) && t == (TaskModel {
            source: f.path_v(),
            category: classify_s(f.name_v(), cfg),
        }) {
            assert(files[files.len() - 1] == f);
        } else {
            let full = plan_moves_s(files, cfg);
            let j = choose|j: int| 0 <= j < full.len() && full[j] == t;
            if scanned_path(f.path_v(), cfg) {
                assert(j < full.len() - 1);
                assert(rest[j] == t);
            } else {
                assert(rest[j] == t);
            }
            lemma_plan_moves_sound(files.drop_last(), cfg, t);
            let i = choose|i: int|
                0 <= i < files.drop_last().len() && scanned_path(
                    #[trigger] files.drop_last()[i].path_v(),
                    cfg,
                ) && t.source == files.drop_last()[i].path_v() && t.category == classify_s(
                    files.drop_last()[i].name_v(),
                    cfg,
                );
            assert(files[i] == files.drop_last()[i]);
            assert(scanned_path(files[i].path_v(), cfg));
        }
    }
}

/// No scan task ever touches a file under an ignored directory, and the
/// scan never records a reserved file name.
pub proof fn lemma_moves_avoid_ignored(files: Seq<FileEntry>, cfg: ConfigModel, t: TaskModel)
    requires
        plan_moves_s(files, cfg).contains(t),
    ensures
        !any_component_in(t.source, cfg.ignore_dirs),
        !cfg.ignore_files.contains(t.source.last()),
{
    lemma_plan_moves_sound(files, cfg, t);
    let i = choose|i: int|
        0 <= i < files.len() && scanned_path(#[trigger] files[i].path_v(), cfg) && t.source
            == files[i].path_v() && t.category == classify_s(files[i].name_v(), cfg);
    if any_component_in(t.source, cfg.ignore_dirs) {
        let j = choose|j: int|
            0 <= j < t.source.len() - 1 && cfg.ignore_dirs.contains(t.source[j]);
        let k = choose|k: int|
            0 <= k < cfg.ignore_dirs.len() && cfg.ignore_dirs[k] == t.source[j];
        assert(skip_names(cfg)[k] == t.source[j]);
        assert(any_component_in(t.source, skip_names(cfg)));
    }
}

/// On a tree where no file is reachable by the scan — every file already
/// sits under a skipped directory or bears a reserved name — the scan
/// records no task at all.
pub proof fn lemma_settled_scan_empty(files: Seq<FileEntry>, cfg: ConfigModel)
    requires
        forall|i: int| 0 <= i < files.len() ==> !scanned_path(#[trigger] files[i].path_v(), cfg),
    ensures
        plan_moves_s(files, cfg) =~= Seq::<TaskModel>::empty(),
    decreases files.len(),
{
    if files.len() == 0 {
    } else {
        assert forall|i: int| 0 <= i < files.drop_last().len() implies !scanned_path(
            #[trigger] files.drop_last()[i].path_v(),
            cfg,
        ) by {
            assert(files.drop_last()[i] == files[i]);
        }
        lemma_settled_scan_empty(files.drop_last(), cfg);
        assert(files[files.len() - 1] == files.last());
    }
}

} // verus!
