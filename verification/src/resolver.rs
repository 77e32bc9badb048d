//! How the library reaches files: each front end implements `FileResolver`
//! over its own storage, and the library never touches a file system itself.

use vstd::prelude::*;

verus! {

/// A string result as values.
pub open spec fn answer_view(r: Result<String, String>) -> Result<Seq<char>, Seq<char>> {
    match r {
        Ok(s) => Ok(s@),
        Err(m) => Err(m@),
    }
}

/// Abstracts file access across platforms.
///
/// Each front end (command line, editor extension) implements it to find and
/// read files in its own storage layer. The two relations below say what its
/// answers are: a verified implementation defines them (by default they
/// hold of every answer), and the library's contracts speak of the
/// answers through them.
pub trait FileResolver {
    /// `answer` is what resolving `include_path`, written in the file
    /// `includer_path`, gives.
    open spec fn resolves_to(
        &self,
        includer_path: Seq<char>,
        include_path: Seq<char>,
        answer: Result<Seq<char>, Seq<char>>,
    ) -> bool {
        true
    }

    /// `answer` is what reading the resolved path `resolved_path` gives.
    open spec fn reads_as(&self, resolved_path: Seq<char>, answer: Result<Seq<char>, Seq<char>>) -> bool {
        true
    }

    /// Resolve an `#include` path.
    ///
    /// * `includer_path`: the file that holds the `#include` directive
    ///   (for resolving relative includes).
    /// * `include_path`: the path as written in the directive.
    ///
    /// Returns the canonical path, or a message that says why there is none.
    fn resolve(&self, includer_path: &str, include_path: &str) -> (r: Result<String, String>)
        ensures
            self.resolves_to(includer_path@, include_path@, answer_view(r)),
    ;

    /// Read the content of a resolved path, or a message that says why it
    /// could not be read.
    fn read_content(&self, resolved_path: &str) -> (r: Result<String, String>)
        ensures
            self.reads_as(resolved_path@, answer_view(r)),
    ;
}

} // verus!
