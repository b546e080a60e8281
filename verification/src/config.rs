//! The immutable per-run configuration: size threshold, ignore lists,
//! and the extension-to-category table.

use vstd::prelude::*;

verus! {

/// Ghost model of a [`Config`]: every string replaced by its character sequence.
pub struct ConfigModel {
    pub min_size: u64,
    pub ignore_dirs: Seq<Seq<char>>,
    pub ignore_files: Seq<Seq<char>>,
    pub known_exts: Seq<Seq<char>>,
    pub default_cat: Seq<char>,
}

impl ConfigModel {
    /// The names of all category folders: one per known extension, plus the default.
    pub open spec fn categories(self) -> Seq<Seq<char>> {
        self.known_exts.push(self.default_cat)
    }
}

/// The fixed configuration a run works under. Built once, never mutated.
pub struct Config {
    /// Files strictly smaller than this many bytes are pruned.
    pub min_size: u64,
    /// Directory names that are never traversed and never removed.
    pub ignore_dirs: Vec<String>,
    /// File names that are never pruned and never moved.
    pub ignore_files: Vec<String>,
    /// Extensions (lower case) with a category folder of their own.
    pub known_exts: Vec<String>,
    /// Category folder for files whose extension is absent or unrecognized.
    pub default_cat: String,
}

impl View for Config {
    type V = ConfigModel;

    open spec fn view(&self) -> ConfigModel {
        ConfigModel {
            min_size: self.min_size,
            ignore_dirs: self.ignore_dirs.deep_view(),
            ignore_files: self.ignore_files.deep_view(),
            known_exts: self.known_exts.deep_view(),
            default_cat: self.default_cat@,
        }
    }
}

/// The one documented pruning threshold: twenty kibibytes. Files strictly
/// below this many bytes are deleted by the pruning pass.
pub const PRUNE_THRESHOLD: u64 = 20480;

impl Config {
    /// The standard configuration: a 20 KiB prune threshold, the usual
    /// infrastructure directories, the cargo manifests, and the fixed
    /// extension table with `others` as the default category.
    pub fn standard() -> (c: Config)
        ensures
            c@.min_size == PRUNE_THRESHOLD,
            c@.ignore_dirs =~= seq!["target"@, "src"@, ".git"@, "node_modules"@],
            c@.ignore_files =~= seq!["Cargo.toml"@, "Cargo.lock"@],
            c@.known_exts =~= seq![
                "png"@, "jpg"@, "jpeg"@, "zip"@, "mov"@, "gif"@, "mp3"@, "mp4"@, "mkv"@,
            ],
            c@.default_cat =~= "others"@,
    {
        let mut ignore_dirs: Vec<String> = Vec::new();
        ignore_dirs.push(String::from_str("target"));
        ignore_dirs.push(String::from_str("src"));
        ignore_dirs.push(String::from_str(".git"));
        ignore_dirs.push(String::from_str("node_modules"));

        let mut ignore_files: Vec<String> = Vec::new();
        ignore_files.push(String::from_str("Cargo.toml"));
        ignore_files.push(String::from_str("Cargo.lock"));

        let mut known_exts: Vec<String> = Vec::new();
        known_exts.push(String::from_str("png"));
        known_exts.push(String::from_str("jpg"));
        known_exts.push(String::from_str("jpeg"));
        known_exts.push(String::from_str("zip"));
        known_exts.push(String::from_str("mov"));
        known_exts.push(String::from_str("gif"));
        known_exts.push(String::from_str("mp3"));
        known_exts.push(String::from_str("mp4"));
        known_exts.push(String::from_str("mkv"));

        Config {
            min_size: PRUNE_THRESHOLD,
            ignore_dirs,
            ignore_files,
            known_exts,
            default_cat: String::from_str("others"),
        }
    }

    /// The list of category folder names to provision under the root,
    /// in table order, the default category last.
    pub fn category_folders(&self) -> (r: Vec<String>)
        ensures
            r.deep_view() =~= self@.categories(),
    {
        let mut r: Vec<String> = self.known_exts.clone();
        assert(r@ =~= self.known_exts@);
        r.push(self.default_cat.clone());
        assert(r.deep_view() =~= self@.categories());
        r
    }
}

} // verus!
