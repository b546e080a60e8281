//! The modelled directory tree: a file is a path of name components,
//! relative to the working root, together with its byte size.

use vstd::prelude::*;

verus! {

/// One regular file found under the root: its path as name components
/// (the last one is the file name) and its length in bytes.
pub struct FileEntry {
    pub path: Vec<String>,
    pub size: u64,
}

impl FileEntry {
    /// A file entry names a file, so its path has at least the file name.
    pub open spec fn wf(self) -> bool {
        self.path@.len() >= 1
    }

    /// The path as character sequences.
    pub open spec fn path_v(self) -> Seq<Seq<char>> {
        self.path.deep_view()
    }

    /// The file name: the last path component.
    pub open spec fn name_v(self) -> Seq<char> {
        self.path_v().last()
    }
}

/// Whether some directory component of `path` (every component but the
/// last, which is the file name) is one of `names`.
pub open spec fn any_component_in(path: Seq<Seq<char>>, names: Seq<Seq<char>>) -> bool {
    exists|i: int| 0 <= i < path.len() - 1 && names.contains(path[i])
}

/// Whether `names` contains the string `s`.
pub fn contains_name(names: &Vec<String>, s: &String) -> (r: bool)
    ensures
        r == names.deep_view().contains(s@),
{
    let mut i: usize = 0;
    while i < names.len()
        invariant
            i <= names@.len(),
            forall|j: int| 0 <= j < i ==> names@[j]@ != s@,
        decreases names@.len() - i,
    {
        if names[i] == *s {
            proof {
                assert(names.deep_view()[i as int] == s@);
            }
            return true;
        }
        i = i + 1;
    }
    proof {
        assert forall|j: int| 0 <= j < names.deep_view().len() implies names.deep_view()[j]
            != s@ by {
            assert(names.deep_view()[j] == names@[j]@);
        }
    }
    false
}

/// Whether any directory component of `path` is one of `names`.
pub fn any_dir_component_in(path: &Vec<String>, names: &Vec<String>) -> (r: bool)
    requires
        path@.len() >= 1,
    ensures
        r == any_component_in(path.deep_view(), names.deep_view()),
{
    let mut i: usize = 0;
    while i < path.len() - 1
        invariant
            path@.len() >= 1,
            i < path@.len(),
            forall|j: int| 0 <= j < i ==> !names.deep_view().contains(path.deep_view()[j]),
        decreases path@.len() - i,
    {
        if contains_name(names, &path[i]) {
            proof {
                assert(path.deep_view()[i as int] == path@[i as int]@);
            }
            return true;
        }
        proof {
            assert(path.deep_view()[i as int] == path@[i as int]@);
        }
        i = i + 1;
    }
    false
}

} // verus!
