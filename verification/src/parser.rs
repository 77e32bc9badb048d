//! Parsing C/C++ source with tree-sitter into the library's syntax tree, and
//! reading the `#include` directives out of it.

use vstd::prelude::*;
use vstd::string::*;
use crate::syntax::{SyntaxNode, SyntaxTree};
use crate::text::{byte_len, char_range, first_char, last_char, slice_text, str_eq};

verus! {

// ── tree-sitter ─────────────────────────────────────────────────────────────

#[verifier::external_type_specification]
#[verifier::external_body]
pub struct ExTsParser(tree_sitter::Parser);

#[verifier::external_type_specification]
#[verifier::external_body]
pub struct ExTsLanguage(tree_sitter::Language);

#[verifier::external_type_specification]
#[verifier::external_body]
pub struct ExTsLanguageError(tree_sitter::LanguageError);

#[verifier::external_type_specification]
#[verifier::external_body]
pub struct ExTsTree(tree_sitter::Tree);

#[verifier::external_type_specification]
#[verifier::external_body]
pub struct ExTsNode<'tree>(tree_sitter::Node<'tree>);

/// A new tree-sitter parser with no language set (`tree_sitter::Parser::new`).
#[verifier::external_body]
fn ts_parser_new() -> tree_sitter::Parser {
    tree_sitter::Parser::new()
}

/// The C++ grammar that this crate is built with.
pub struct CppLanguage {
    language: tree_sitter::Language,
}

/// A tree-sitter parser with the C++ grammar assigned.
pub struct CppParser {
    parser: tree_sitter::Parser,
}

/// The C++ grammar (`tree_sitter::Language::new` applied to `tree_sitter_cpp::LANGUAGE`).
#[verifier::external_body]
fn ts_cpp_language() -> CppLanguage {
    CppLanguage { language: tree_sitter::Language::new(tree_sitter_cpp::LANGUAGE) }
}

/// Assigns the C++ grammar to a parser (`tree_sitter::Parser::set_language`).
/// It fails only for a grammar whose ABI version lies outside what the
/// parser accepts (13 to 15 here) or that cannot parse; the bundled C++
/// grammar has version 14 and parse tables, so it succeeds.
#[verifier::external_body]
fn ts_set_language(parser: tree_sitter::Parser, language: &CppLanguage) -> (r: Result<
    CppParser,
    tree_sitter::LanguageError,
>)
    ensures
        r is Ok,
{
    let mut parser = parser;
    match parser.set_language(&language.language) {
        Ok(()) => Ok(CppParser { parser }),
        Err(e) => Err(e),
    }
}

// What tree-sitter records of a node, and of every node below it, is held
// as a map from paths to facts. A path is the sequence of child indices that
// leads from the node down (the node itself is the empty path), and a fact is
// the tuple (kind, field under which the parent holds the node, start byte,
// end byte, number of children). Every path is a key of such a map; what it
// holds at a path that leads to no node is left unsaid.

/// The nodes of a tree (`tree_sitter::Tree`), by their path from the root.
pub uninterp spec fn ts_tree_nodes(tree: tree_sitter::Tree) -> Map<Seq<int>, (Seq<char>, Option<Seq<char>>, int, int, int)>;

/// The nodes of the subtree under a node (`tree_sitter::Node`), by their
/// path from that node.
pub uninterp spec fn ts_subtree(node: tree_sitter::Node) -> Map<Seq<int>, (Seq<char>, Option<Seq<char>>, int, int, int)>;

/// The nodes of the tree that tree-sitter's C++ grammar builds for a text,
/// by their path from the root.
pub uninterp spec fn cpp_parse(text: Seq<char>) -> Map<Seq<int>, (Seq<char>, Option<Seq<char>>, int, int, int)>;

/// The nodes under the child at index `i`, by their path from that child.
pub open spec fn child_nodes(
    m: Map<Seq<int>, (Seq<char>, Option<Seq<char>>, int, int, int)>,
    i: int,
) -> Map<Seq<int>, (Seq<char>, Option<Seq<char>>, int, int, int)> {
    Map::new(|p: Seq<int>| true, |p: Seq<int>| m[seq![i] + p])
}

/// Parses UTF-8 text (`tree_sitter::Parser::parse` with no earlier tree).
/// It gives `None` only without a language, or on a timeout or a
/// cancellation, none of which a `CppParser` has; the tree depends on the
/// text alone, the grammar being fixed.
#[verifier::external_body]
fn ts_parse(parser: &mut CppParser, text: &str) -> (r: Option<tree_sitter::Tree>)
    ensures
        r is Some,
        r matches Some(t) ==> ts_tree_nodes(t) == cpp_parse(text@),
{
    parser.parser.parse(text, None)
}

/// The root node of a tree (`tree_sitter::Tree::root_node`): its subtree is
/// the whole tree.
#[verifier::external_body]
fn ts_root_node<'a>(tree: &'a tree_sitter::Tree) -> (r: tree_sitter::Node<'a>)
    ensures
        ts_subtree(r) == ts_tree_nodes(*tree),
{
    tree.root_node()
}

/// The grammar's name for a node (`tree_sitter::Node::kind`): the kind
/// recorded for the node itself.
#[verifier::external_body]
fn ts_kind(node: &tree_sitter::Node) -> (r: String)
    ensures
        r@ == ts_subtree(*node)[Seq::<int>::empty()].0,
{
    node.kind().to_string()
}

/// A node's first byte offset (`tree_sitter::Node::start_byte`), as recorded
/// for the node itself.
#[verifier::external_body]
fn ts_start_byte(node: &tree_sitter::Node) -> (r: usize)
    ensures
        r == ts_subtree(*node)[Seq::<int>::empty()].2,
{
    node.start_byte()
}

/// The byte offset just past a node (`tree_sitter::Node::end_byte`), as
/// recorded for the node itself.
#[verifier::external_body]
fn ts_end_byte(node: &tree_sitter::Node) -> (r: usize)
    ensures
        r == ts_subtree(*node)[Seq::<int>::empty()].3,
{
    node.end_byte()
}

/// A node's number of children (`tree_sitter::Node::child_count`), as
/// recorded for the node itself.
#[verifier::external_body]
fn ts_child_count(node: &tree_sitter::Node) -> (r: u32)
    ensures
        r == ts_subtree(*node)[Seq::<int>::empty()].4,
{
    node.child_count()
}

/// A node's child at an index (`tree_sitter::Node::child`): a child for
/// each index below the number of children, none past it; the child's
/// subtree is what the node records under that index.
#[verifier::external_body]
fn ts_child<'a>(node: &tree_sitter::Node<'a>, i: u32) -> (r: Option<tree_sitter::Node<'a>>)
    ensures
        (r is Some) <==> i < ts_subtree(*node)[Seq::<int>::empty()].4,
        r matches Some(c) ==> ts_subtree(c) == child_nodes(ts_subtree(*node), i as int),
{
    node.child(i)
}

/// The field name under which a node holds its child at an index
/// (`tree_sitter::Node::field_name_for_child`): for an index below the number
/// of children, the field recorded for that child.
#[verifier::external_body]
fn ts_field_name_for_child(node: &tree_sitter::Node, i: u32) -> (r: Option<String>)
    ensures
        i < ts_subtree(*node)[Seq::<int>::empty()].4 ==> opt_text(r) == ts_subtree(
            *node,
        )[seq![i as int]].1,
{
    match node.field_name_for_child(i) {
        Some(f) => Some(f.to_string()),
        None => None,
    }
}

/// Why a source could not be turned into a syntax tree.
#[derive(Debug, Clone, PartialEq, Eq)]
pub enum ParseError {
    /// The C++ grammar could not be assigned to the parser.
    LanguageUnavailable,
    /// The parser produced no tree.
    NoTree,
    /// The parser reported a node outside the source or off a character boundary.
    MalformedTree,
}

impl ParseError {
    /// The text of `message`.
    pub open spec fn spec_message(&self) -> Seq<char> {
        match self {
            ParseError::LanguageUnavailable => "failed to set C++ language"@,
            ParseError::NoTree => "failed to parse source"@,
            ParseError::MalformedTree => "failed to parse source: malformed syntax tree"@,
        }
    }

    /// A message that describes the error.
    pub fn message(&self) -> (r: String)
        ensures
            r@ == self.spec_message(),
    {
        match self {
            ParseError::LanguageUnavailable => String::from_str("failed to set C++ language"),
            ParseError::NoTree => String::from_str("failed to parse source"),
            ParseError::MalformedTree => String::from_str("failed to parse source: malformed syntax tree"),
        }
    }
}

/// The text of an optional string.
pub open spec fn opt_text(o: Option<String>) -> Option<Seq<char>> {
    match o {
        Some(s) => Some(s@),
        None => None,
    }
}

/// The subtree under `node` is the one that `m` records: every node has the
/// recorded kind, byte range and number of children, and every child the
/// recorded field name.
pub open spec fn matches_parse(
    node: SyntaxNode,
    m: Map<Seq<int>, (Seq<char>, Option<Seq<char>>, int, int, int)>,
) -> bool
    decreases node,
{
    &&& node.kind@ == m[Seq::<int>::empty()].0
    &&& node.start_byte == m[Seq::<int>::empty()].2
    &&& node.end_byte == m[Seq::<int>::empty()].3
    &&& node.children.len() == m[Seq::<int>::empty()].4
    &&& forall|i: int|
        0 <= i < node.children.len() ==> {
            &&& opt_text(node.children@[i].field_name) == m[seq![i]].1
            &&& matches_parse(#[trigger] node.children@[i], child_nodes(m, i))
        }
}

/// The subtree that `m` records can be held as a `SyntaxNode` that fits `src`
/// at `depth`: it is no deeper than `depth` and every node covers a character
/// range of `src`.
pub open spec fn parse_fits(
    m: Map<Seq<int>, (Seq<char>, Option<Seq<char>>, int, int, int)>,
    src: Seq<char>,
    depth: nat,
) -> bool
    decreases depth,
{
    &&& depth > 0
    &&& char_range(src, m[Seq::<int>::empty()].2, m[Seq::<int>::empty()].3)
    &&& forall|i: int|
        0 <= i < m[Seq::<int>::empty()].4 ==> parse_fits(
            #[trigger] child_nodes(m, i),
            src,
            (depth - 1) as nat,
        )
}

/// `t` is the syntax tree of `src`: the tree that tree-sitter's C++ grammar
/// builds for it, node for node.
pub open spec fn is_parse_of(t: SyntaxTree, src: Seq<char>) -> bool {
    &&& t.root.field_name is None
    &&& matches_parse(t.root, cpp_parse(src))
}

/// The C++ parse of `src` can be held as a syntax tree.
pub open spec fn parse_is_held(src: Seq<char>) -> bool {
    parse_fits(cpp_parse(src), src, usize::MAX as nat)
}

/// Converts the subtree under `node` into the library's syntax tree, at most
/// `depth` levels deep, giving the node the field name `field_name`.
fn convert_node(node: &tree_sitter::Node, field_name: Option<String>, src: &str, depth: usize) -> (r:
    Result<SyntaxNode, ParseError>)
    ensures
        r is Ok <==> parse_fits(ts_subtree(*node), src@, depth as nat),
        r matches Ok(n) ==> n.fits(src@, depth as nat) && n.field_name == field_name
            && matches_parse(n, ts_subtree(*node)),
        r matches Err(e) ==> e == ParseError::MalformedTree,
    decreases depth,
{
    let ghost m = ts_subtree(*node);
    let start = ts_start_byte(node);
    let end = ts_end_byte(node);
    if depth == 0 || start > end || end > byte_len(src) || !src.is_char_boundary(start)
        || !src.is_char_boundary(end) {
        return Err(ParseError::MalformedTree);
    }
    let kind = ts_kind(node);
    let count = ts_child_count(node);
    let mut children: Vec<SyntaxNode> = Vec::new();
    let mut i: u32 = 0;
    while i < count
        invariant
            0 < depth,
            m == ts_subtree(*node),
            count == m[Seq::<int>::empty()].4,
            i <= count,
            children@.len() == i,
            forall|k: int|
                0 <= k < children@.len() ==> {
                    &&& (#[trigger] children@[k]).fits(src@, (depth - 1) as nat)
                    &&& opt_text(children@[k].field_name) == m[seq![k]].1
                    &&& matches_parse(children@[k], child_nodes(m, k))
                    &&& parse_fits(child_nodes(m, k), src@, (depth - 1) as nat)
                },
        decreases count - i,
    {
        match ts_child(node, i) {
            Some(child) => {
                let field = ts_field_name_for_child(node, i);
                let converted = match convert_node(&child, field, src, depth - 1) {
                    Ok(c) => c,
                    Err(e) => {
                        return Err(e);
                    },
                };
                children.push(converted);
            },
            None => {
                return Err(ParseError::MalformedTree);
            },
        }
        i = i + 1;
    }
    let n = SyntaxNode { kind, field_name, start_byte: start, end_byte: end, children };
    proof {
        assert forall|k: int| 0 <= k < m[Seq::<int>::empty()].4 implies parse_fits(
            #[trigger] child_nodes(m, k),
            src@,
            (depth - 1) as nat,
        ) by {
            assert(children@[k].fits(src@, (depth - 1) as nat));
        }
        assert forall|k: int| 0 <= k < n.children.len() implies {
            &&& opt_text(n.children@[k].field_name) == m[seq![k]].1
            &&& matches_parse(#[trigger] n.children@[k], child_nodes(m, k))
        } by {
            assert(n.children@[k] == children@[k]);
        }
    }
    Ok(n)
}

/// Parse C/C++ source text into a syntax tree.
///
/// The grammar is always available and tree-sitter always gives a tree; the
/// result is that tree, unless one of its nodes lies outside the source or
/// off a character boundary.
pub fn parse_source(source: &str) -> (r: Result<SyntaxTree, ParseError>)
    ensures
        r is Ok <==> parse_is_held(source@),
        r matches Ok(t) ==> t.wf(source@) && is_parse_of(t, source@),
        r matches Err(e) ==> e == ParseError::MalformedTree,
{
    let language = ts_cpp_language();
    let mut parser = match ts_set_language(ts_parser_new(), &language) {
        Ok(p) => p,
        Err(_) => {
            return Err(ParseError::LanguageUnavailable);
        },
    };
    match ts_parse(&mut parser, source) {
        Some(tree) => {
            let root = ts_root_node(&tree);
            match convert_node(&root, None, source, usize::MAX) {
                Ok(converted) => Ok(SyntaxTree { root: converted }),
                Err(e) => Err(e),
            }
        },
        None => Err(ParseError::NoTree),
    }
}

// ── #include directives ─────────────────────────────────────────────────────

/// A `#include` directive found in source code.
#[derive(Debug, Clone, PartialEq, Eq)]
pub enum Include<'a> {
    /// `#include "..."`: a local header that a `FileResolver` can resolve.
    Local(&'a str),
    /// `#include <...>`: a system header, kept as it is in the output.
    System(&'a str),
}

/// An `#include` directive as values.
pub enum IncludeView {
    Local(Seq<char>),
    System(Seq<char>),
}

impl<'a> View for Include<'a> {
    type V = IncludeView;

    open spec fn view(&self) -> IncludeView {
        match self {
            Include::Local(p) => IncludeView::Local(p@),
            Include::System(p) => IncludeView::System(p@),
        }
    }
}

/// Whether a character is ASCII, one byte in UTF-8.
pub open spec fn is_ascii_char(c: char) -> bool {
    (c as u32) < 128
}

/// The text between the first and last byte of a quoted path (`"x.h"` or
/// `<x>`): defined when those bytes are whole characters and distinct.
pub open spec fn spec_unquote(raw: Seq<char>) -> Option<Seq<char>> {
    if raw.len() >= 2 && is_ascii_char(raw[0]) && is_ascii_char(raw.last()) {
        Some(raw.subrange(1, raw.len() - 1))
    } else {
        None
    }
}

/// The include that the children of `node` from index `i` on name: the
/// first `string_literal` (local) or `system_lib_string` (system) child.
pub open spec fn classify_from(node: SyntaxNode, src: Seq<char>, i: nat) -> Option<IncludeView>
    decreases node.children.len() - i,
{
    if i >= node.children.len() {
        None
    } else {
        let child = node.children@[i as int];
        if child.kind@ == "string_literal"@ {
            match spec_unquote(child.text(src)) {
                Some(p) => Some(IncludeView::Local(p)),
                None => None,
            }
        } else if child.kind@ == "system_lib_string"@ {
            match spec_unquote(child.text(src)) {
                Some(p) => Some(IncludeView::System(p)),
                None => None,
            }
        } else {
            classify_from(node, src, i + 1)
        }
    }
}

/// The include that a `preproc_include` node names.
pub open spec fn spec_classify_include(node: SyntaxNode, src: Seq<char>) -> Option<IncludeView> {
    classify_from(node, src, 0)
}

/// The view of an optional include.
pub open spec fn opt_include_view(o: Option<Include>) -> Option<IncludeView> {
    match o {
        Some(inc) => Some(inc@),
        None => None,
    }
}

/// Every child of `node` covers a character range of `src`.
pub open spec fn children_in_range(node: SyntaxNode, src: Seq<char>) -> bool {
    forall|i: int|
        0 <= i < node.children.len() ==> char_range(
            src,
            (#[trigger] node.children@[i]).start_byte as int,
            node.children@[i].end_byte as int,
        )
}

fn unquote<'a>(raw: &'a str) -> (r: Option<&'a str>)
    ensures
        match r {
            Some(p) => spec_unquote(raw@) == Some(p@),
            None => spec_unquote(raw@) is None,
        },
{
    let n = raw.unicode_len();
    if n < 2 {
        return None;
    }
    let first_ascii = match first_char(raw) {
        Some(c) => (c as u32) < 128,
        None => false,
    };
    let last_ascii = match last_char(raw) {
        Some(c) => (c as u32) < 128,
        None => false,
    };
    if first_ascii && last_ascii {
        Some(raw.substring_char(1, n - 1))
    } else {
        None
    }
}

/// Classify a `preproc_include` node: the local or system path it names, if any.
pub fn classify_include<'a>(node: &SyntaxNode, source: &'a str) -> (r: Option<Include<'a>>)
    requires
        children_in_range(*node, source@),
    ensures
        opt_include_view(r) == spec_classify_include(*node, source@),
{
    let n = node.children.len();
    let mut i: usize = 0;
    while i < n
        invariant
            n == node.children.len(),
            i <= n,
            children_in_range(*node, source@),
            spec_classify_include(*node, source@) == classify_from(*node, source@, i as nat),
        decreases n - i,
    {
        let child = &node.children[i];
        let kind = child.kind.as_str();
        if str_eq(kind, "string_literal") {
            let raw = slice_text(source, child.start_byte, child.end_byte);
            return match unquote(raw) {
                Some(p) => Some(Include::Local(p)),
                None => None,
            };
        } else if str_eq(kind, "system_lib_string") {
            let raw = slice_text(source, child.start_byte, child.end_byte);
            return match unquote(raw) {
                Some(p) => Some(Include::System(p)),
                None => None,
            };
        }
        i = i + 1;
    }
    None
}

/// Whether a `preproc_include` node is a quoted local include (`#include "..."`).
pub fn is_quoted_include(node: &SyntaxNode, source: &str) -> (b: bool)
    requires
        children_in_range(*node, source@),
    ensures
        b == (spec_classify_include(*node, source@) matches Some(IncludeView::Local(_))),
{
    match classify_include(node, source) {
        Some(Include::Local(_)) => true,
        _ => false,
    }
}

/// The views of a sequence of includes.
pub open spec fn include_views(v: Seq<Include>) -> Seq<IncludeView> {
    v.map_values(|inc: Include| inc@)
}

/// The includes named by the `preproc_include` nodes of a subtree, in
/// source order.
pub open spec fn includes_of(node: SyntaxNode, src: Seq<char>) -> Seq<IncludeView>
    decreases node, node.children.len() + 1,
{
    let own = if node.kind@ == "preproc_include"@ && spec_classify_include(node, src) is Some {
        seq![spec_classify_include(node, src)->0]
    } else {
        Seq::empty()
    };
    own + includes_of_children(node, src, node.children.len() as nat)
}

/// The includes named in the subtrees of the first `i` children of `node`.
pub open spec fn includes_of_children(node: SyntaxNode, src: Seq<char>, i: nat) -> Seq<IncludeView>
    decreases node, i,
{
    if i == 0 || i > node.children.len() {
        Seq::empty()
    } else {
        includes_of_children(node, src, (i - 1) as nat) + includes_of(node.children@[i - 1], src)
    }
}

/// The local paths among a sequence of includes, in order.
pub open spec fn local_paths(incs: Seq<IncludeView>) -> Seq<Seq<char>>
    decreases incs.len(),
{
    if incs.len() == 0 {
        Seq::empty()
    } else {
        let rest = local_paths(incs.drop_last());
        match incs.last() {
            IncludeView::Local(p) => rest.push(p),
            IncludeView::System(_) => rest,
        }
    }
}

proof fn lemma_fits_children_in_range(node: SyntaxNode, src: Seq<char>, depth: nat)
    requires
        node.fits(src, depth),
    ensures
        children_in_range(node, src),
{
    assert forall|i: int| 0 <= i < node.children.len() implies char_range(
        src,
        (#[trigger] node.children@[i]).start_byte as int,
        node.children@[i].end_byte as int,
    ) by {
        assert(node.children@[i].fits(src, (depth - 1) as nat));
    }
}

fn collect_includes<'a>(node: &SyntaxNode, source: &'a str, out: &mut Vec<Include<'a>>, Ghost(depth): Ghost<nat>)
    requires
        node.fits(source@, depth),
    ensures
        include_views(final(out)@) == include_views(old(out)@) + includes_of(*node, source@),
    decreases node,
{
    let ghost before = include_views(out@);
    proof {
        lemma_fits_children_in_range(*node, source@, depth);
    }
    if str_eq(node.kind.as_str(), "preproc_include") {
        match classify_include(node, source) {
            Some(inc) => {
                out.push(inc);
            },
            None => {},
        }
    }
    let ghost own = include_views(out@);
    assert(own == before + (if node.kind@ == "preproc_include"@ && spec_classify_include(*node, source@) is Some {
        seq![spec_classify_include(*node, source@)->0]
    } else {
        Seq::<IncludeView>::empty()
    }));
    let n = node.children.len();
    let mut i: usize = 0;
    while i < n
        invariant
            n == node.children.len(),
            i <= n,
            node.fits(source@, depth),
            include_views(out@) == own + includes_of_children(*node, source@, i as nat),
        decreases n - i,
    {
        collect_includes(&node.children[i], source, out, Ghost((depth - 1) as nat));
        proof {
            assert(includes_of_children(*node, source@, (i + 1) as nat)
                == includes_of_children(*node, source@, i as nat) + includes_of(node.children@[i as int], source@));
        }
        i = i + 1;
    }
    assert(own + includes_of_children(*node, source@, n as nat) =~= before + includes_of(*node, source@));
}

/// Extract all `#include` paths (both local and system) from a syntax tree, in source order.
pub fn extract_all_includes<'a>(tree: &SyntaxTree, source: &'a str) -> (r: Vec<Include<'a>>)
    requires
        tree.wf(source@),
    ensures
        include_views(r@) == includes_of(tree.root, source@),
{
    let mut out: Vec<Include<'a>> = Vec::new();
    collect_includes(&tree.root, source, &mut out, Ghost(usize::MAX as nat));
    assert(include_views(Seq::<Include>::empty()) =~= Seq::<IncludeView>::empty());
    assert(Seq::<IncludeView>::empty() + includes_of(tree.root, source@) =~= includes_of(tree.root, source@));
    out
}

/// Extract only the local (`#include "..."`) paths, in source order.
pub fn extract_include_paths<'a>(tree: &SyntaxTree, source: &'a str) -> (r: Vec<&'a str>)
    requires
        tree.wf(source@),
    ensures
        r@.map_values(|p: &str| p@) == local_paths(includes_of(tree.root, source@)),
{
    let all = extract_all_includes(tree, source);
    let mut paths: Vec<&'a str> = Vec::new();
    let n = all.len();
    let mut i: usize = 0;
    while i < n
        invariant
            n == all@.len(),
            i <= n,
            include_views(all@) == includes_of(tree.root, source@),
            paths@.map_values(|p: &str| p@) == local_paths(include_views(all@).take(i as int)),
        decreases n - i,
    {
        assert(include_views(all@).take((i + 1) as int).drop_last() =~= include_views(all@).take(i as int));
        match all[i] {
            Include::Local(p) => {
                paths.push(p);
                assert(paths@.map_values(|p: &str| p@) =~= local_paths(include_views(all@).take(i as int)).push(p@));
            },
            Include::System(_) => {},
        }
        i = i + 1;
    }
    assert(include_views(all@).take(n as int) =~= include_views(all@));
    paths
}

/// The node reached from `node` by following the child indices of `path`,
/// if they all name children.
pub open spec fn node_at(node: SyntaxNode, path: Seq<int>) -> Option<SyntaxNode>
    decreases path.len(),
{
    if path.len() == 0 {
        Some(node)
    } else if 0 <= path[0] < node.children.len() {
        node_at(node.children@[path[0]], path.drop_first())
    } else {
        None
    }
}

proof fn lemma_children_includes_contain(node: SyntaxNode, src: Seq<char>, i: nat, k: int, x: IncludeView)
    requires
        0 <= k < i <= node.children.len(),
        includes_of(node.children@[k], src).contains(x),
    ensures
        includes_of_children(node, src, i).contains(x),
    decreases i,
{
    let prev = includes_of_children(node, src, (i - 1) as nat);
    let last = includes_of(node.children@[i - 1], src);
    if k == i - 1 {
        let j = choose|j: int| 0 <= j < last.len() && last[j] == x;
        assert((prev + last)[prev.len() + j] == x);
    } else {
        lemma_children_includes_contain(node, src, (i - 1) as nat, k, x);
        let j = choose|j: int| 0 <= j < prev.len() && prev[j] == x;
        assert((prev + last)[j] == x);
    }
}

/// Every `#include` directive of a subtree is listed, however deep it lies
/// and under whichever directive: the include that a `preproc_include` node
/// anywhere below `node` names is among the includes of `node`.
pub proof fn lemma_every_include_listed(node: SyntaxNode, src: Seq<char>, path: Seq<int>)
    requires
        node_at(node, path) matches Some(d) && d.kind@ == "preproc_include"@ && spec_classify_include(d, src) is Some,
    ensures
        includes_of(node, src).contains(spec_classify_include(node_at(node, path)->0, src)->0),
    decreases path.len(),
{
    let x = spec_classify_include(node_at(node, path)->0, src)->0;
    let own = if node.kind@ == "preproc_include"@ && spec_classify_include(node, src) is Some {
        seq![spec_classify_include(node, src)->0]
    } else {
        Seq::<IncludeView>::empty()
    };
    let kids = includes_of_children(node, src, node.children.len() as nat);
    if path.len() == 0 {
        assert((own + kids)[0] == x);
    } else {
        let k = path[0];
        lemma_every_include_listed(node.children@[k], src, path.drop_first());
        lemma_children_includes_contain(node, src, node.children.len() as nat, k, x);
        let j = choose|j: int| 0 <= j < kids.len() && kids[j] == x;
        assert((own + kids)[own.len() + j] == x);
    }
}

} // verus!
