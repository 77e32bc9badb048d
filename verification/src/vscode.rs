//! The editor extension's side of the library: the function exported to
//! the editor, how it reads its settings, and the report it answers with.

use vstd::prelude::*;
use crate::expander::ExpandError;
use crate::text::{push_char, strings_view};

verus! {

broadcast use vstd::string::axiom_spec_iter;

/// The function exported to the editor: the source behind a fixed label.
pub fn expand(source: &str) -> (r: String)
    ensures
        r@ == "expanded: "@ + source@,
{
    let mut r = String::from_str("expanded: ");
    r.append(source);
    r
}

/// Splitting `s` at each `sep`: the pieces completed so far, and the one
/// still open.
pub open spec fn split_progress(s: Seq<char>, sep: char) -> (Seq<Seq<char>>, Seq<char>)
    decreases s.len(),
{
    if s.len() == 0 {
        (Seq::empty(), Seq::empty())
    } else {
        let (done, open) = split_progress(s.drop_last(), sep);
        if s.last() == sep {
            (if open.len() > 0 { done.push(open) } else { done }, Seq::empty())
        } else {
            (done, open.push(s.last()))
        }
    }
}

/// The pieces of `s` between the separators `sep`, without the empty ones.
pub open spec fn split_nonempty(s: Seq<char>, sep: char) -> Seq<Seq<char>> {
    let (done, open) = split_progress(s, sep);
    if open.len() > 0 {
        done.push(open)
    } else {
        done
    }
}

/// The include search paths handed over as one comma-separated list.
pub fn parse_include_list(list: &str) -> (r: Vec<String>)
    ensures
        strings_view(r@) == split_nonempty(list@, ','),
{
    let mut pieces: Vec<String> = Vec::new();
    let mut open = String::new();
    for c in it: list.chars()
        invariant
            it.seq() == list@,
            0 <= it.index() <= list@.len(),
            (strings_view(pieces@), open@) == split_progress(list@.take(it.index()), ','),
    {
        let ghost i = it.index();
        assert(list@.take(i + 1).drop_last() =~= list@.take(i));
        assert(list@.take(i + 1).last() == c);
        if c == ',' {
            if !open.as_str().is_empty() {
                let ghost before = pieces@;
                pieces.push(open);
                assert(strings_view(pieces@) =~= strings_view(before).push(pieces@.last()@));
            }
            open = String::new();
        } else {
            push_char(&mut open, c);
        }
    }
    assert(list@.take(list@.len() as int) =~= list@);
    if !open.as_str().is_empty() {
        let ghost before = pieces@;
        pieces.push(open);
        assert(strings_view(pieces@) =~= strings_view(before).push(pieces@.last()@));
    }
    pieces
}

/// Whether the compression setting asks for compression: only the exact
/// value `true` does.
pub fn compress_requested(value: Option<&str>) -> (r: bool)
    ensures
        r == (value matches Some(v) && v@ == "true"@),
{
    match value {
        Some(v) => crate::text::str_eq(v, "true"),
        None => false,
    }
}

/// The answer to the editor.
pub struct ExpandResult {
    pub success: bool,
    /// The expanded source, on success.
    pub data: Option<String>,
    /// What went wrong, on failure.
    pub error: Option<String>,
}

/// A failed answer carrying `msg`.
pub fn failure(msg: String) -> (r: ExpandResult)
    ensures
        !r.success,
        r.data is None,
        r.error == Some(msg),
{
    ExpandResult { success: false, data: None, error: Some(msg) }
}

/// The answer for the outcome of an expansion.
pub fn report(outcome: Result<String, ExpandError>) -> (r: ExpandResult)
    ensures
        r.success == outcome is Ok,
        match outcome {
            Ok(data) => r.data == Some(data) && r.error is None,
            Err(e) => r.data is None && (r.error matches Some(m) && m@ == e.spec_message()),
        },
{
    match outcome {
        Ok(data) => ExpandResult { success: true, data: Some(data), error: None },
        Err(e) => failure(e.message()),
    }
}

} // verus!
