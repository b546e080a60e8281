use file_organizer::cleanup::cleanup_order;
use file_organizer::config::Config;
use file_organizer::names::disambig_name;
use file_organizer::place::{plan_placements, DestRef, PlaceError};
use file_organizer::pruner::{plan_prune, total_size};
use file_organizer::scan::{classify, plan_moves, MoveTask};
use file_organizer::tree::FileEntry;

fn s(x: &str) -> String {
    String::from(x)
}

fn path(parts: &[&str]) -> Vec<String> {
    parts.iter().map(|p| s(p)).collect()
}

fn fe(parts: &[&str], size: u64) -> FileEntry {
    FileEntry { path: path(parts), size }
}

#[test]
fn standard_config_values() {
    let cfg = Config::standard();
    assert_eq!(cfg.min_size, 20480);
    assert_eq!(cfg.ignore_dirs, path(&["target", "src", ".git", "node_modules"]));
    assert_eq!(cfg.ignore_files, path(&["Cargo.toml", "Cargo.lock"]));
    assert_eq!(cfg.default_cat, s("others"));
    let folders = cfg.category_folders();
    assert_eq!(folders.len(), 10);
    assert_eq!(folders[0], s("png"));
    assert_eq!(folders[9], s("others"));
}

#[test]
fn prune_deletes_small_keeps_large() {
    let cfg = Config::standard();
    let files = vec![fe(&["a", "b", "tiny.txt"], 5), fe(&["a", "b", "photo.jpg"], 2 * 1024 * 1024)];
    let out = plan_prune(files, &cfg);
    assert_eq!(out.to_delete.len(), 1);
    assert_eq!(out.to_delete[0].path, path(&["a", "b", "tiny.txt"]));
    assert_eq!(out.kept.len(), 1);
    assert_eq!(out.kept[0].path, path(&["a", "b", "photo.jpg"]));
}

#[test]
fn prune_keeps_file_exactly_at_threshold() {
    let cfg = Config::standard();
    let files = vec![fe(&["edge.bin"], 20480), fe(&["under.bin"], 20479)];
    let out = plan_prune(files, &cfg);
    assert_eq!(out.to_delete.len(), 1);
    assert_eq!(out.to_delete[0].path, path(&["under.bin"]));
    assert_eq!(out.kept.len(), 1);
    assert_eq!(out.kept[0].path, path(&["edge.bin"]));
}

#[test]
fn prune_never_touches_ignored_dirs_or_files() {
    let cfg = Config::standard();
    let files = vec![
        fe(&["target", "debug", "small.o"], 3),
        fe(&[".git", "HEAD"], 1),
        fe(&["Cargo.toml"], 2),
        fe(&["deep", "node_modules", "pkg", "index.js"], 7),
        fe(&["plain.txt"], 4),
    ];
    let out = plan_prune(files, &cfg);
    assert_eq!(out.to_delete.len(), 1);
    assert_eq!(out.to_delete[0].path, path(&["plain.txt"]));
    assert_eq!(out.kept.len(), 4);
}

#[test]
fn total_size_adds_up() {
    let files = vec![fe(&["a"], 5), fe(&["b"], 7), fe(&["c"], 0)];
    assert_eq!(total_size(&files), 12);
}

#[test]
fn classify_known_extensions_case_insensitive() {
    let cfg = Config::standard();
    assert_eq!(classify(&s("photo.JPG"), &cfg), s("jpg"));
    assert_eq!(classify(&s("clip.Mp4"), &cfg), s("mp4"));
    assert_eq!(classify(&s("pic.png"), &cfg), s("png"));
    assert_eq!(classify(&s("film.MKV"), &cfg), s("mkv"));
}

#[test]
fn classify_unknown_or_missing_extension_goes_to_default() {
    let cfg = Config::standard();
    assert_eq!(classify(&s("notes.txt"), &cfg), s("others"));
    assert_eq!(classify(&s("archive.tar"), &cfg), s("others"));
    assert_eq!(classify(&s("README"), &cfg), s("others"));
    assert_eq!(classify(&s(".gitignore"), &cfg), s("others"));
    assert_eq!(classify(&s("ends."), &cfg), s("others"));
}

#[test]
fn classify_uses_last_extension_only() {
    let cfg = Config::standard();
    assert_eq!(classify(&s("backup.tar.zip"), &cfg), s("zip"));
    assert_eq!(classify(&s("photo.png.txt"), &cfg), s("others"));
}

#[test]
fn scan_classifies_and_skips() {
    let cfg = Config::standard();
    let files = vec![
        fe(&["a", "b", "photo.jpg"], 100),
        fe(&["song.MP3"], 100),
        fe(&["target", "small.png"], 100),
        fe(&["png", "already.png"], 100),
        fe(&["Cargo.lock"], 100),
        fe(&["notes", "todo.md"], 100),
    ];
    let tasks = plan_moves(files, &cfg);
    assert_eq!(tasks.len(), 3);
    assert_eq!(tasks[0].source, path(&["a", "b", "photo.jpg"]));
    assert_eq!(tasks[0].category, s("jpg"));
    assert_eq!(tasks[1].source, path(&["song.MP3"]));
    assert_eq!(tasks[1].category, s("mp3"));
    assert_eq!(tasks[2].source, path(&["notes", "todo.md"]));
    assert_eq!(tasks[2].category, s("others"));
}

#[test]
fn second_scan_after_moves_finds_nothing() {
    let cfg = Config::standard();
    let files = vec![fe(&["a", "photo.jpg"], 100), fe(&["b", "c", "video.mp4"], 100)];
    let tasks = plan_moves(files, &cfg);
    let plan = plan_placements(tasks, Vec::new());
    assert_eq!(plan.failed.len(), 0);
    let after: Vec<FileEntry> = plan
        .placements
        .iter()
        .map(|p| FileEntry { path: vec![p.category.clone(), p.name.clone()], size: 100 })
        .collect();
    let again = plan_moves(after, &cfg);
    assert_eq!(again.len(), 0);
}

#[test]
fn collision_gets_numbered_suffix() {
    let cfg = Config::standard();
    let files = vec![fe(&["one", "photo.png"], 10), fe(&["two", "photo.png"], 20)];
    let tasks = plan_moves(files, &cfg);
    let plan = plan_placements(tasks, Vec::new());
    assert_eq!(plan.placements.len(), 2);
    assert_eq!(plan.placements[0].category, s("png"));
    assert_eq!(plan.placements[0].name, s("photo.png"));
    assert_eq!(plan.placements[1].category, s("png"));
    assert_eq!(plan.placements[1].name, s("photo_1.png"));
    assert_eq!(plan.failed.len(), 0);
}

#[test]
fn collision_with_existing_file_in_category() {
    let existing = vec![
        DestRef { category: s("png"), name: s("photo.png") },
        DestRef { category: s("png"), name: s("photo_1.png") },
    ];
    let tasks = vec![MoveTask { source: path(&["x", "photo.png"]), category: s("png") }];
    let plan = plan_placements(tasks, existing);
    assert_eq!(plan.placements.len(), 1);
    assert_eq!(plan.placements[0].name, s("photo_2.png"));
}

#[test]
fn same_name_different_category_is_no_collision() {
    let tasks = vec![
        MoveTask { source: path(&["a", "cover.png"]), category: s("png") },
        MoveTask { source: path(&["b", "cover.png"]), category: s("others") },
    ];
    let plan = plan_placements(tasks, Vec::new());
    assert_eq!(plan.placements[0].name, s("cover.png"));
    assert_eq!(plan.placements[1].name, s("cover.png"));
}

#[test]
fn exhausted_name_search_reports_distinct_error() {
    let mut existing = vec![DestRef { category: s("png"), name: s("photo.png") }];
    let base = s("photo.png");
    for k in 1..=1000u64 {
        existing.push(DestRef { category: s("png"), name: disambig_name(&base, k) });
    }
    let tasks = vec![MoveTask { source: path(&["x", "photo.png"]), category: s("png") }];
    let plan = plan_placements(tasks, existing);
    assert_eq!(plan.placements.len(), 0);
    assert_eq!(plan.failed.len(), 1);
    assert_eq!(plan.failed[0].source, path(&["x", "photo.png"]));
    let r = file_organizer::place::resolve_name(
        &s("photo.png"),
        &s("png"),
        &{
            let mut v = vec![DestRef { category: s("png"), name: s("photo.png") }];
            for k in 1..=1000u64 {
                v.push(DestRef { category: s("png"), name: disambig_name(&base, k) });
            }
            v
        },
    );
    assert!(matches!(r, Err(PlaceError::NoFreeName)));
}

#[test]
fn disambig_names_exactly() {
    assert_eq!(disambig_name(&s("photo.png"), 1), s("photo_1.png"));
    assert_eq!(disambig_name(&s("photo.png"), 12), s("photo_12.png"));
    assert_eq!(disambig_name(&s("archive.tar.gz"), 3), s("archive.tar_3.gz"));
    assert_eq!(disambig_name(&s("README"), 2), s("README_2"));
    assert_eq!(disambig_name(&s(".gitignore"), 1), s(".gitignore_1"));
    assert_eq!(disambig_name(&s("ends."), 4), s("ends_4."));
}

#[test]
fn cleanup_order_protects_and_sorts_deepest_first() {
    let cfg = Config::standard();
    let dirs = vec![
        path(&["a"]),
        path(&["png"]),
        path(&["a", "b"]),
        path(&["target"]),
        path(&["a", "b", "c"]),
        path(&["x"]),
        path(&["png", "inner"]),
    ];
    let order = cleanup_order(dirs, &cfg);
    assert_eq!(order.len(), 5);
    for d in &order {
        assert_ne!(d, &path(&["png"]));
        assert_ne!(d, &path(&["target"]));
    }
    for w in order.windows(2) {
        assert!(w[0].len() >= w[1].len());
    }
    assert_eq!(order[0], path(&["a", "b", "c"]));
    let pos_child = order.iter().position(|d| d == &path(&["a", "b"])).unwrap();
    let pos_parent = order.iter().position(|d| d == &path(&["a"])).unwrap();
    assert!(pos_child < pos_parent);
}

#[test]
fn cleanup_order_is_stable_for_equal_depth() {
    let cfg = Config::standard();
    let dirs = vec![path(&["b", "x"]), path(&["a", "y"]), path(&["c"]), path(&["b"])];
    let order = cleanup_order(dirs, &cfg);
    assert_eq!(
        order,
        vec![path(&["b", "x"]), path(&["a", "y"]), path(&["c"]), path(&["b"])]
    );
}

#[test]
fn cleanup_keeps_nested_dir_named_like_protected() {
    let cfg = Config::standard();
    let dirs = vec![path(&["a", "target"]), path(&["jpg"])];
    let order = cleanup_order(dirs, &cfg);
    assert_eq!(order, vec![path(&["a", "target"])]);
}

#[test]
fn prune_then_organize_scenario() {
    let cfg = Config::standard();
    let files = vec![fe(&["a", "b", "tiny.txt"], 5), fe(&["a", "b", "photo.jpg"], 2 * 1024 * 1024)];
    let pruned = plan_prune(files, &cfg);
    assert_eq!(pruned.to_delete.len(), 1);
    assert_eq!(pruned.to_delete[0].path, path(&["a", "b", "tiny.txt"]));
    assert_eq!(total_size(&pruned.to_delete), 5);

    let tasks = plan_moves(pruned.kept, &cfg);
    assert_eq!(tasks.len(), 1);
    assert_eq!(tasks[0].category, s("jpg"));
    let plan = plan_placements(tasks, Vec::new());
    assert_eq!(plan.placements.len(), 1);
    assert_eq!(plan.placements[0].source, path(&["a", "b", "photo.jpg"]));
    assert_eq!(plan.placements[0].category, s("jpg"));
    assert_eq!(plan.placements[0].name, s("photo.jpg"));

    let dirs = vec![path(&["a"]), path(&["a", "b"]), path(&["jpg"]), path(&["others"])];
    let order = cleanup_order(dirs, &cfg);
    assert_eq!(order, vec![path(&["a", "b"]), path(&["a"])]);
}

#[test]
fn scan_skips_category_dirs_at_any_depth() {
    let cfg = Config::standard();
    let files = vec![fe(&["stuff", "png", "old.png"], 9), fe(&["stuff", "fresh.gif"], 9)];
    let tasks = plan_moves(files, &cfg);
    assert_eq!(tasks.len(), 1);
    assert_eq!(tasks[0].source, path(&["stuff", "fresh.gif"]));
    assert_eq!(tasks[0].category, s("gif"));
}
