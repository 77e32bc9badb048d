//! The front ends' include search: which directories a relative include is
//! looked up in, and in what order. Looking at the file system is left to
//! the programs around the library.

use vstd::prelude::*;
use crate::text::{clone_strings, strings_view};

verus! {

/// Resolves includes against the local file system, through the include
/// search paths it was made with.
pub struct FsResolver {
    /// Directories searched in order, after the including file's own directory.
    pub include_paths: Vec<String>,
}

impl FsResolver {
    /// A resolver that searches `include_paths`.
    pub fn new(include_paths: Vec<String>) -> (r: Self)
        ensures
            r.include_paths@ == include_paths@,
    {
        FsResolver { include_paths }
    }

    /// The resolver for an entry file in `source_dir`: that directory is
    /// searched before the include paths.
    pub fn for_source_dir(source_dir: String, include_paths: Vec<String>) -> (r: Self)
        ensures
            r.include_paths@ == seq![source_dir] + include_paths@,
    {
        let mut paths: Vec<String> = Vec::new();
        paths.push(source_dir);
        let mut rest = include_paths;
        paths.append(&mut rest);
        FsResolver::new(paths)
    }

    /// The directories in which a relative include is looked up, in order:
    /// the including file's directory, when it has one, then the include paths.
    pub fn search_dirs(&self, includer_dir: Option<&str>) -> (r: Vec<String>)
        ensures
            strings_view(r@) == (match includer_dir {
                Some(d) => seq![d@],
                None => Seq::<Seq<char>>::empty(),
            }) + strings_view(self.include_paths@),
    {
        let mut dirs: Vec<String> = Vec::new();
        if let Some(d) = includer_dir {
            dirs.push(String::from_str(d));
        }
        let ghost first = dirs@;
        let mut rest = clone_strings(&self.include_paths);
        let ghost rest_view = rest@;
        dirs.append(&mut rest);
        assert(dirs@ == first + rest_view);
        assert(strings_view(dirs@) =~= strings_view(first) + strings_view(rest_view));
        dirs
    }
}

/// The first candidate that was found to exist, given whether each one,
/// in search order, exists.
pub fn first_found(found: &Vec<bool>) -> (r: Option<usize>)
    ensures
        match r {
            Some(i) => i < found@.len() && found@[i as int] && forall|j: int| 0 <= j < i ==> !found@[j],
            None => forall|j: int| 0 <= j < found@.len() ==> !found@[j],
        },
{
    let n = found.len();
    let mut i: usize = 0;
    while i < n
        invariant
            n == found@.len(),
            i <= n,
            forall|j: int| 0 <= j < i ==> !found@[j],
        decreases n - i,
    {
        if found[i] {
            return Some(i);
        }
        i = i + 1;
    }
    None
}

/// The message for an include that no search directory holds.
pub fn not_found_message(include_path: &str) -> (r: String)
    ensures
        r@ == "include file not found: "@ + include_path@,
{
    let mut m = String::from_str("include file not found: ");
    m.append(include_path);
    m
}

} // verus!
