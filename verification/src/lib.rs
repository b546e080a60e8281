//! Planning core of a directory-tree reorganizer. A tree is modelled as
//! plain values — each file a list of path components with a byte size —
//! and every decision the tool takes is a verified function over that
//! model: which files fall to the pruning threshold, which directories a
//! scan may enter, which category folder a file belongs to, which free
//! name resolves a destination collision, and in which order emptied
//! directories are removed. The shell that walks the real tree and
//! performs the deletes, renames and removals stays outside; it hands
//! these functions the paths it saw and carries out the plans they
//! return.

pub mod cleanup;
pub mod config;
pub mod names;
pub mod organize;
pub mod place;
pub mod pruner;
pub mod scan;
pub mod tree;
