//! Expansion of an entry file: every local `#include` is replaced by the
//! expansion of the file it names, once per preprocessor context, so that the
//! result is a single self-contained file.

use vstd::prelude::*;
use vstd::string::*;
use crate::syntax::SyntaxNode;
use crate::compressor::{drop_blanks, lemma_drop_blanks_add, lemma_drop_blanks_push_blank, lemma_steps_add_blanks};
use crate::compressor::{is_directive_keyword, spec_is_directive_keyword};
use crate::compressor::lemma_steps_append_only;
use crate::compressor::{
    CompressorState, CompressorView, ends_with_newline, is_compound_directive, is_preproc_directive,
    spec_is_compound_directive, spec_is_preproc_directive, starts_with_hash, with_trailing_newline,
};
use crate::parser::{ParseError, child_nodes, classify_from, cpp_parse, is_parse_of, matches_parse, parse_is_held, parse_source};
use crate::resolver::FileResolver;
use crate::syntax::SyntaxTree;
use crate::text::{push_str, string_with_capacity, text_of};
use vstd::utf8::encode_utf8;
use crate::parser::{
    Include, IncludeView, classify_include, opt_include_view, spec_classify_include,
    children_in_range,
};
use crate::text::{arrow_joined, clone_strings, first_char, join_arrows, strings_view};
use crate::text::{char_range, slice_text, starts_with_char, str_eq, trim, trim_spec};

verus! {

// ── Preprocessor contexts ───────────────────────────────────────────────────

/// One level of the stack of enclosing conditional directives; the strings
/// are the tokens of the directive's condition, so that `#if A == B` and
/// `#if A==B` compare equal.
#[derive(Debug)]
pub enum PreprocDirective {
    If(Vec<String>),
    Ifdef(Vec<String>),
    Ifndef(Vec<String>),
    Elif(Vec<String>),
    Elifdef(Vec<String>),
    Else,
}

/// A directive as values.
pub enum DirectiveView {
    If(Seq<Seq<char>>),
    Ifdef(Seq<Seq<char>>),
    Ifndef(Seq<Seq<char>>),
    Elif(Seq<Seq<char>>),
    Elifdef(Seq<Seq<char>>),
    Else,
}

impl View for PreprocDirective {
    type V = DirectiveView;

    open spec fn view(&self) -> DirectiveView {
        match self {
            PreprocDirective::If(s) => DirectiveView::If(strings_view(s@)),
            PreprocDirective::Ifdef(s) => DirectiveView::Ifdef(strings_view(s@)),
            PreprocDirective::Ifndef(s) => DirectiveView::Ifndef(strings_view(s@)),
            PreprocDirective::Elif(s) => DirectiveView::Elif(strings_view(s@)),
            PreprocDirective::Elifdef(s) => DirectiveView::Elifdef(strings_view(s@)),
            PreprocDirective::Else => DirectiveView::Else,
        }
    }
}

/// The views of a sequence of directives.
pub open spec fn directives_view(v: Seq<PreprocDirective>) -> Seq<DirectiveView> {
    v.map_values(|d: PreprocDirective| d@)
}

fn strings_eq(a: &Vec<String>, b: &Vec<String>) -> (r: bool)
    ensures
        r == (strings_view(a@) == strings_view(b@)),
{
    if a.len() != b.len() {
        assert(strings_view(a@).len() != strings_view(b@).len());
        return false;
    }
    let n = a.len();
    let mut i: usize = 0;
    while i < n
        invariant
            n == a@.len(),
            n == b@.len(),
            i <= n,
            strings_view(a@).take(i as int) == strings_view(b@).take(i as int),
        decreases n - i,
    {
        if !str_eq(a[i].as_str(), b[i].as_str()) {
            assert(strings_view(a@)[i as int] != strings_view(b@)[i as int]);
            return false;
        }
        assert(strings_view(a@).take((i + 1) as int) =~= strings_view(b@).take((i + 1) as int));
        i = i + 1;
    }
    assert(strings_view(a@) =~= strings_view(a@).take(n as int));
    assert(strings_view(b@) =~= strings_view(b@).take(n as int));
    true
}

fn clone_directive(d: &PreprocDirective) -> (r: PreprocDirective)
    ensures
        r@ == d@,
{
    match d {
        PreprocDirective::If(s) => PreprocDirective::If(clone_strings(s)),
        PreprocDirective::Ifdef(s) => PreprocDirective::Ifdef(clone_strings(s)),
        PreprocDirective::Ifndef(s) => PreprocDirective::Ifndef(clone_strings(s)),
        PreprocDirective::Elif(s) => PreprocDirective::Elif(clone_strings(s)),
        PreprocDirective::Elifdef(s) => PreprocDirective::Elifdef(clone_strings(s)),
        PreprocDirective::Else => PreprocDirective::Else,
    }
}

fn directive_eq(a: &PreprocDirective, b: &PreprocDirective) -> (r: bool)
    ensures
        r == (a@ == b@),
{
    match (a, b) {
        (PreprocDirective::If(x), PreprocDirective::If(y)) => strings_eq(x, y),
        (PreprocDirective::Ifdef(x), PreprocDirective::Ifdef(y)) => strings_eq(x, y),
        (PreprocDirective::Ifndef(x), PreprocDirective::Ifndef(y)) => strings_eq(x, y),
        (PreprocDirective::Elif(x), PreprocDirective::Elif(y)) => strings_eq(x, y),
        (PreprocDirective::Elifdef(x), PreprocDirective::Elifdef(y)) => strings_eq(x, y),
        (PreprocDirective::Else, PreprocDirective::Else) => true,
        _ => false,
    }
}

/// A copy of a sequence of directives.
fn clone_directives(v: &Vec<PreprocDirective>) -> (r: Vec<PreprocDirective>)
    ensures
        directives_view(r@) == directives_view(v@),
{
    let mut r: Vec<PreprocDirective> = Vec::new();
    let n = v.len();
    let mut i: usize = 0;
    while i < n
        invariant
            n == v@.len(),
            i <= n,
            directives_view(r@) == directives_view(v@).take(i as int),
        decreases n - i,
    {
        let ghost prev = r@;
        let c = clone_directive(&v[i]);
        r.push(c);
        assert(r@ == prev.push(c));
        assert(directives_view(r@) =~= directives_view(prev).push(c@));
        assert(directives_view(r@) =~= directives_view(v@).take((i + 1) as int));
        i = i + 1;
    }
    assert(directives_view(v@).take(n as int) =~= directives_view(v@));
    r
}

/// Whether two sequences of directives are equal.
fn directives_eq(a: &Vec<PreprocDirective>, b: &Vec<PreprocDirective>) -> (r: bool)
    ensures
        r == (directives_view(a@) == directives_view(b@)),
{
    if a.len() != b.len() {
        assert(directives_view(a@).len() != directives_view(b@).len());
        return false;
    }
    let n = a.len();
    let mut i: usize = 0;
    while i < n
        invariant
            n == a@.len(),
            n == b@.len(),
            i <= n,
            directives_view(a@).take(i as int) == directives_view(b@).take(i as int),
        decreases n - i,
    {
        if !directive_eq(&a[i], &b[i]) {
            assert(directives_view(a@)[i as int] != directives_view(b@)[i as int]);
            return false;
        }
        assert(directives_view(a@).take((i + 1) as int) =~= directives_view(b@).take((i + 1) as int));
        i = i + 1;
    }
    assert(directives_view(a@) =~= directives_view(a@).take(n as int));
    assert(directives_view(b@) =~= directives_view(b@).take(n as int));
    true
}

// ── Subjects of conditional directives ──────────────────────────────────────

/// The token a leaf contributes to a subject: its trimmed text, unless that
/// is empty or starts with `#`.
pub open spec fn leaf_token(node: SyntaxNode, src: Seq<char>) -> Seq<Seq<char>> {
    let t = trim_spec(node.text(src));
    if t.len() > 0 && t[0] != '#' {
        seq![t]
    } else {
        Seq::empty()
    }
}

/// The tokens of all leaves of a subtree, in order.
pub open spec fn leaf_tokens(node: SyntaxNode, src: Seq<char>) -> Seq<Seq<char>>
    decreases node, node.children.len() + 1,
{
    if node.is_leaf() {
        leaf_token(node, src)
    } else {
        leaf_tokens_children(node, src, node.children.len() as nat)
    }
}

/// The leaf tokens of the subtrees of the first `i` children.
pub open spec fn leaf_tokens_children(node: SyntaxNode, src: Seq<char>, i: nat) -> Seq<Seq<char>>
    decreases node, i,
{
    if i == 0 || i > node.children.len() {
        Seq::empty()
    } else {
        leaf_tokens_children(node, src, (i - 1) as nat) + leaf_tokens(node.children@[i - 1], src)
    }
}

/// Children that never carry a directive's subject.
pub open spec fn is_branch_kind(kind: Seq<char>) -> bool {
    ||| kind == "preproc_directive"@
    ||| kind == "preproc_else"@
    ||| kind == "preproc_elif"@
    ||| kind == "preproc_elifdef"@
}

/// The subject found among the children of `node` from index `i` on: the
/// leaf tokens of the first child that is not a branch, whose trimmed text
/// neither is empty nor starts with `#`, and that has at least one token.
pub open spec fn subject_from(node: SyntaxNode, src: Seq<char>, i: nat) -> Seq<Seq<char>>
    decreases node.children.len() - i,
{
    if i >= node.children.len() {
        Seq::empty()
    } else {
        let c = node.children@[i as int];
        let t = trim_spec(c.text(src));
        if is_branch_kind(c.kind@) || t.len() == 0 || t[0] == '#' || leaf_tokens(c, src).len() == 0 {
            subject_from(node, src, i + 1)
        } else {
            leaf_tokens(c, src)
        }
    }
}

/// The subject token sequence of a conditional directive node.
pub open spec fn spec_extract_subject(node: SyntaxNode, src: Seq<char>) -> Seq<Seq<char>> {
    subject_from(node, src, 0)
}

fn token_of_leaf(node: &SyntaxNode, src: &str, tokens: &mut Vec<String>)
    requires
        char_range(src@, node.start_byte as int, node.end_byte as int),
    ensures
        strings_view(final(tokens)@) == strings_view(old(tokens)@) + leaf_token(*node, src@),
{
    let text = slice_text(src, node.start_byte, node.end_byte);
    let t = trim(text);
    if !t.is_empty() && !starts_with_char(t, '#') {
        tokens.push(String::from_str(t));
        assert(strings_view(tokens@) =~= strings_view(old(tokens)@) + seq![t@]);
    } else {
        assert(strings_view(tokens@) =~= strings_view(old(tokens)@) + Seq::<Seq<char>>::empty());
    }
}

/// Collect the non-empty, non-`#` trimmed texts of all leaves of a subtree.
fn collect_leaf_tokens(node: &SyntaxNode, src: &str, tokens: &mut Vec<String>, Ghost(depth): Ghost<nat>)
    requires
        node.fits(src@, depth),
    ensures
        strings_view(final(tokens)@) == strings_view(old(tokens)@) + leaf_tokens(*node, src@),
    decreases node,
{
    if node.children.len() == 0 {
        token_of_leaf(node, src, tokens);
        return;
    }
    let ghost before = strings_view(tokens@);
    let n = node.children.len();
    let mut i: usize = 0;
    while i < n
        invariant
            n == node.children.len(),
            i <= n,
            node.fits(src@, depth),
            strings_view(tokens@) == before + leaf_tokens_children(*node, src@, i as nat),
        decreases n - i,
    {
        let child = &node.children[i];
        if child.children.len() > 0 {
            collect_leaf_tokens(child, src, tokens, Ghost((depth - 1) as nat));
        } else {
            assert(child.fits(src@, (depth - 1) as nat));
            token_of_leaf(child, src, tokens);
            assert(leaf_tokens(*child, src@) == leaf_token(*child, src@));
        }
        assert(leaf_tokens_children(*node, src@, (i + 1) as nat) == leaf_tokens_children(*node, src@, i as nat)
            + leaf_tokens(node.children@[i as int], src@));
        assert(strings_view(tokens@) =~= before + leaf_tokens_children(*node, src@, (i + 1) as nat));
        i = i + 1;
    }
}

/// Extract the subject token sequence from a conditional directive node.
fn extract_subject(node: &SyntaxNode, src: &str, Ghost(depth): Ghost<nat>) -> (r: Vec<String>)
    requires
        node.fits(src@, depth),
    ensures
        strings_view(r@) == spec_extract_subject(*node, src@),
{
    let n = node.children.len();
    let mut i: usize = 0;
    while i < n
        invariant
            n == node.children.len(),
            i <= n,
            node.fits(src@, depth),
            spec_extract_subject(*node, src@) == subject_from(*node, src@, i as nat),
        decreases n - i,
    {
        let child = &node.children[i];
        assert(child.fits(src@, (depth - 1) as nat));
        let kind = child.kind.as_str();
        let branch = str_eq(kind, "preproc_directive") || str_eq(kind, "preproc_else") || str_eq(
            kind,
            "preproc_elif",
        ) || str_eq(kind, "preproc_elifdef");
        if !branch {
            let t = trim(slice_text(src, child.start_byte, child.end_byte));
            if !(starts_with_char(t, '#') || t.is_empty()) {
                let mut tokens: Vec<String> = Vec::new();
                collect_leaf_tokens(child, src, &mut tokens, Ghost((depth - 1) as nat));
                assert(strings_view(tokens@) =~= leaf_tokens(*child, src@));
                if tokens.len() > 0 {
                    return tokens;
                }
            }
        }
        i = i + 1;
    }
    let none: Vec<String> = Vec::new();
    assert(strings_view(none@) =~= Seq::<Seq<char>>::empty());
    none
}

// ── The walk over a file's syntax tree ──────────────────────────────────────

/// What the walk over one file's syntax tree meets, in order.
pub enum ExpandEvent<'a> {
    /// A `preproc_include` node (its children are not visited), with the
    /// include it names and the context it stands in.
    Include { start: usize, end: usize, target: Option<Include<'a>>, context: Vec<PreprocDirective> },
    /// A `#pragma once` line (its children are not visited).
    PragmaOnce { start: usize, end: usize },
    /// A leaf other than a comment, outside the arms above, and whether it
    /// is the keyword that opens a directive's line.
    Token { start: usize, end: usize, keyword: bool },
    /// Entering the children of a preprocessor directive.
    Enter { kind: String },
    /// Moving on to a further child of the same parent.
    Sibling { has_children: bool, starts_with_hash: bool },
    /// Leaving a preprocessor directive.
    Exit { kind: String },
}

/// An event as values.
pub enum EventView {
    Include { start: nat, end: nat, target: Option<IncludeView>, context: Seq<DirectiveView> },
    PragmaOnce { start: nat, end: nat },
    Token { start: nat, end: nat, keyword: bool },
    Enter { kind: Seq<char> },
    Sibling { has_children: bool, starts_with_hash: bool },
    Exit { kind: Seq<char> },
}

impl<'a> View for ExpandEvent<'a> {
    type V = EventView;

    open spec fn view(&self) -> EventView {
        match self {
            ExpandEvent::Include { start, end, target, context } => EventView::Include {
                start: *start as nat,
                end: *end as nat,
                target: opt_include_view(*target),
                context: directives_view(context@),
            },
            ExpandEvent::PragmaOnce { start, end } => EventView::PragmaOnce {
                start: *start as nat,
                end: *end as nat,
            },
            ExpandEvent::Token { start, end, keyword } => EventView::Token {
                start: *start as nat,
                end: *end as nat,
                keyword: *keyword,
            },
            ExpandEvent::Enter { kind } => EventView::Enter { kind: kind@ },
            ExpandEvent::Sibling { has_children, starts_with_hash } => EventView::Sibling {
                has_children: *has_children,
                starts_with_hash: *starts_with_hash,
            },
            ExpandEvent::Exit { kind } => EventView::Exit { kind: kind@ },
        }
    }
}

/// The views of a sequence of events.
pub open spec fn events_view(v: Seq<ExpandEvent>) -> Seq<EventView> {
    v.map_values(|e: ExpandEvent| e@)
}

/// The byte ranges an event names lie on character boundaries of `src`.
pub open spec fn event_in_range(e: EventView, src: Seq<char>) -> bool {
    match e {
        EventView::Include { start, end, .. } => char_range(src, start as int, end as int),
        EventView::PragmaOnce { start, end } => char_range(src, start as int, end as int),
        EventView::Token { start, end, .. } => char_range(src, start as int, end as int),
        _ => true,
    }
}

/// Every event of a sequence lies within `src`.
pub open spec fn events_in_range(v: Seq<EventView>, src: Seq<char>) -> bool {
    forall|i: int| 0 <= i < v.len() ==> event_in_range(#[trigger] v[i], src)
}

/// The walk's state: the stack of enclosing conditional directives, and the
/// stack heights recorded when each `#if`/`#ifdef`/`#ifndef` was entered.
pub struct WalkView {
    pub context: Seq<DirectiveView>,
    pub saved: Seq<int>,
}

/// A `#pragma once` line.
pub open spec fn is_pragma_once(node: SyntaxNode, src: Seq<char>) -> bool {
    node.kind@ == "preproc_call"@ && trim_spec(node.text(src)) == "#pragma once"@
}

/// A directive that opens a conditional block.
pub open spec fn opens_conditional(kind: Seq<char>) -> bool {
    kind == "preproc_ifdef"@ || kind == "preproc_ifndef"@ || kind == "preproc_if"@
}

/// `v` cut down to its first `n` elements, when it has more.
pub open spec fn truncate<T>(v: Seq<T>, n: int) -> Seq<T> {
    if 0 <= n < v.len() {
        v.take(n)
    } else {
        v
    }
}

/// The state after the walk has entered a conditional directive that
/// pushes `d`, recording the new height.
pub open spec fn open_block(w: WalkView, d: DirectiveView) -> WalkView {
    WalkView { context: w.context.push(d), saved: w.saved.push(w.context.len() + 1int) }
}

/// What visiting `node` itself does, before its children: the events it
/// yields, the new state, and whether its children are skipped.
pub open spec fn walk_own(node: SyntaxNode, src: Seq<char>, w: WalkView) -> (Seq<EventView>, WalkView, bool) {
    let k = node.kind@;
    if k == "preproc_include"@ {
        (
            seq![
                EventView::Include {
                    start: node.start_byte as nat,
                    end: node.end_byte as nat,
                    target: spec_classify_include(node, src),
                    context: w.context,
                },
            ],
            w,
            true,
        )
    } else if k == "preproc_call"@ {
        if is_pragma_once(node, src) {
            (seq![EventView::PragmaOnce { start: node.start_byte as nat, end: node.end_byte as nat }], w, true)
        } else {
            (Seq::empty(), w, false)
        }
    } else if k == "preproc_ifdef"@ {
        (Seq::empty(), open_block(w, DirectiveView::Ifdef(spec_extract_subject(node, src))), false)
    } else if k == "preproc_ifndef"@ {
        (Seq::empty(), open_block(w, DirectiveView::Ifndef(spec_extract_subject(node, src))), false)
    } else if k == "preproc_if"@ {
        (Seq::empty(), open_block(w, DirectiveView::If(spec_extract_subject(node, src))), false)
    } else if k == "preproc_else"@ {
        (Seq::empty(), WalkView { context: w.context.push(DirectiveView::Else), ..w }, false)
    } else if k == "preproc_elif"@ {
        (
            Seq::empty(),
            WalkView { context: w.context.push(DirectiveView::Elif(spec_extract_subject(node, src))), ..w },
            false,
        )
    } else if k == "preproc_elifdef"@ {
        (
            Seq::empty(),
            WalkView {
                context: w.context.push(DirectiveView::Elifdef(spec_extract_subject(node, src))),
                ..w
            },
            false,
        )
    } else if node.is_leaf() && k != "comment"@ {
        (
            seq![
                EventView::Token {
                    start: node.start_byte as nat,
                    end: node.end_byte as nat,
                    keyword: spec_is_directive_keyword(k),
                },
            ],
            w,
            false,
        )
    } else {
        (Seq::empty(), w, false)
    }
}

/// Leaving a node of kind `k` whose children were visited: a conditional
/// block is closed by cutting the context back to where it was.
pub open spec fn close_block(w: WalkView, k: Seq<char>) -> WalkView {
    if opens_conditional(k) && w.saved.len() > 0 {
        WalkView { context: truncate(w.context, w.saved.last() - 1), saved: w.saved.drop_last() }
    } else {
        w
    }
}

/// The events of the walk over the subtree of `node`, and the state after it.
pub open spec fn walk_node(node: SyntaxNode, src: Seq<char>, w: WalkView) -> (Seq<EventView>, WalkView)
    decreases node, node.children.len() + 1,
{
    let (own, w1, skip) = walk_own(node, src, w);
    let k = node.kind@;
    if !skip && node.children.len() > 0 {
        let enter = if spec_is_preproc_directive(k) {
            seq![EventView::Enter { kind: k }]
        } else {
            Seq::empty()
        };
        let (inner, w2) = walk_children(node, src, w1, node.children.len() as nat);
        let exit = if spec_is_preproc_directive(k) {
            seq![EventView::Exit { kind: k }]
        } else {
            Seq::empty()
        };
        (own + enter + inner + exit, close_block(w2, k))
    } else {
        (own, w1)
    }
}

/// The events of the walk over the first `i` children of `node`.
pub open spec fn walk_children(node: SyntaxNode, src: Seq<char>, w: WalkView, i: nat) -> (
    Seq<EventView>,
    WalkView,
)
    decreases node, i,
{
    if i == 0 || i > node.children.len() {
        (Seq::empty(), w)
    } else {
        let (prev, w1) = walk_children(node, src, w, (i - 1) as nat);
        let child = node.children@[i - 1];
        let sib = if i > 1 {
            seq![
                EventView::Sibling {
                    has_children: !child.is_leaf(),
                    starts_with_hash: starts_with_hash(child.text(src)),
                },
            ]
        } else {
            Seq::empty()
        };
        let (evs, w2) = walk_node(child, src, w1);
        (prev + sib + evs, w2)
    }
}

/// The walk's state as the library holds it.
pub struct WalkState {
    pub context: Vec<PreprocDirective>,
    pub saved: Vec<usize>,
}

impl View for WalkState {
    type V = WalkView;

    open spec fn view(&self) -> WalkView {
        WalkView {
            context: directives_view(self.context@),
            saved: self.saved@.map_values(|n: usize| n as int),
        }
    }
}

impl WalkState {
    /// Every recorded height is at least one.
    pub open spec fn inv(&self) -> bool {
        forall|i: int| 0 <= i < self.saved@.len() ==> #[trigger] self.saved@[i] >= 1
    }
}

fn push_event<'a>(events: &mut Vec<ExpandEvent<'a>>, e: ExpandEvent<'a>, Ghost(src): Ghost<&str>)
    requires
        events_in_range(events_view(old(events)@), src@),
        event_in_range(e@, src@),
    ensures
        events_view(final(events)@) == events_view(old(events)@).push(e@),
        events_in_range(events_view(final(events)@), src@),
{
    let ghost prev = events@;
    events.push(e);
    assert(events@ == prev.push(e));
    assert(events_view(events@) =~= events_view(prev).push(e@));
}

fn open_block_exec(w: &mut WalkState, d: PreprocDirective)
    requires
        old(w).inv(),
    ensures
        final(w).inv(),
        final(w)@ == open_block(old(w)@, d@),
{
    let ghost prev = w@;
    let ghost pc = w.context@;
    let ghost ps = w.saved@;
    w.context.push(d);
    let h = w.context.len();
    w.saved.push(h);
    assert(directives_view(w.context@) =~= directives_view(pc).push(d@));
    assert(w.saved@.map_values(|n: usize| n as int) =~= ps.map_values(|n: usize| n as int).push(h as int));
}

fn push_context(w: &mut WalkState, d: PreprocDirective)
    requires
        old(w).inv(),
    ensures
        final(w).inv(),
        final(w)@ == (WalkView { context: old(w)@.context.push(d@), ..old(w)@ }),
{
    let ghost pc = w.context@;
    w.context.push(d);
    assert(directives_view(w.context@) =~= directives_view(pc).push(d@));
}

fn close_block_exec(w: &mut WalkState, kind: &str)
    requires
        old(w).inv(),
    ensures
        final(w).inv(),
        final(w)@ == close_block(old(w)@, kind@),
{
    if str_eq(kind, "preproc_ifdef") || str_eq(kind, "preproc_ifndef") || str_eq(kind, "preproc_if") {
        let ghost pc = w.context@;
        let ghost ps = w.saved@;
        match w.saved.pop() {
            Some(saved) => {
                assert(ps[ps.len() - 1] >= 1);
                w.context.truncate(saved - 1);
                let ghost cut = (saved - 1) as int;
                assert(w.saved@.map_values(|n: usize| n as int) =~= ps.map_values(|n: usize| n as int).drop_last());
                proof {
                    if cut < pc.len() {
                        assert(directives_view(w.context@) =~= directives_view(pc).take(cut));
                    } else {
                        assert(directives_view(w.context@) =~= directives_view(pc));
                    }
                }
            },
            None => {},
        }
    }
}

proof fn lemma_fits_children_in_range(node: SyntaxNode, src: Seq<char>, depth: nat)
    requires
        node.fits(src, depth),
    ensures
        children_in_range(node, src),
{
    assert forall|i: int| 0 <= i < node.children.len() implies char_range(
        src,
        (#[trigger] node.children@[i]).start_byte as int,
        node.children@[i].end_byte as int,
    ) by {
        assert(node.children@[i].fits(src, (depth - 1) as nat));
    }
}

/// Walk the subtree of `node`, appending its events and updating the context.
fn walk<'a>(
    node: &SyntaxNode,
    src: &'a str,
    w: &mut WalkState,
    events: &mut Vec<ExpandEvent<'a>>,
    Ghost(depth): Ghost<nat>,
)
    requires
        node.fits(src@, depth),
        old(w).inv(),
        events_in_range(events_view(old(events)@), src@),
    ensures
        final(w).inv(),
        events_in_range(events_view(final(events)@), src@),
        events_view(final(events)@) == events_view(old(events)@) + walk_node(*node, src@, old(w)@).0,
        final(w)@ == walk_node(*node, src@, old(w)@).1,
    decreases node,
{
    let ghost w0 = w@;
    let ghost ev0 = events_view(events@);
    let k = node.kind.as_str();
    let mut skip = false;
    if str_eq(k, "preproc_include") {
        skip = true;
        proof {
            lemma_fits_children_in_range(*node, src@, depth);
        }
        let target = classify_include(node, src);
        let context = clone_directives(&w.context);
        push_event(
            events,
            ExpandEvent::Include { start: node.start_byte, end: node.end_byte, target, context },
            Ghost(src),
        );
    } else if str_eq(k, "preproc_call") {
        let t = trim(slice_text(src, node.start_byte, node.end_byte));
        if str_eq(t, "#pragma once") {
            skip = true;
            push_event(
                events,
                ExpandEvent::PragmaOnce { start: node.start_byte, end: node.end_byte },
                Ghost(src),
            );
        }
    } else if str_eq(k, "preproc_ifdef") {
        let subject = extract_subject(node, src, Ghost(depth));
        open_block_exec(w, PreprocDirective::Ifdef(subject));
    } else if str_eq(k, "preproc_ifndef") {
        let subject = extract_subject(node, src, Ghost(depth));
        open_block_exec(w, PreprocDirective::Ifndef(subject));
    } else if str_eq(k, "preproc_if") {
        let subject = extract_subject(node, src, Ghost(depth));
        open_block_exec(w, PreprocDirective::If(subject));
    } else if str_eq(k, "preproc_else") {
        push_context(w, PreprocDirective::Else);
    } else if str_eq(k, "preproc_elif") {
        let subject = extract_subject(node, src, Ghost(depth));
        push_context(w, PreprocDirective::Elif(subject));
    } else if str_eq(k, "preproc_elifdef") {
        let subject = extract_subject(node, src, Ghost(depth));
        push_context(w, PreprocDirective::Elifdef(subject));
    } else if node.children.len() == 0 && !str_eq(k, "comment") {
        let keyword = is_directive_keyword(k);
        push_event(
            events,
            ExpandEvent::Token { start: node.start_byte, end: node.end_byte, keyword },
            Ghost(src),
        );
    }
    let ghost own = walk_own(*node, src@, w0);
    assert(events_view(events@) =~= ev0 + own.0);
    assert(w@ == own.1);
    assert(skip == own.2);
    if !skip && node.children.len() > 0 {
        let directive = is_preproc_directive(k);
        if directive {
            push_event(events, ExpandEvent::Enter { kind: String::from_str(k) }, Ghost(src));
        }
        let ghost w1 = w@;
        let ghost ev1 = events_view(events@);
        let n = node.children.len();
        let mut i: usize = 0;
        while i < n
            invariant
                n == node.children.len(),
                i <= n,
                node.fits(src@, depth),
                w.inv(),
                events_in_range(events_view(events@), src@),
                events_view(events@) == ev1 + walk_children(*node, src@, w1, i as nat).0,
                w@ == walk_children(*node, src@, w1, i as nat).1,
            decreases n - i,
        {
            let child = &node.children[i];
            assert(child.fits(src@, (depth - 1) as nat));
            let ghost before = events_view(events@);
            if i > 0 {
                let hash = match first_char(slice_text(src, child.start_byte, child.end_byte)) {
                    Some(c) => c == '#',
                    None => false,
                };
                push_event(
                    events,
                    ExpandEvent::Sibling { has_children: child.children.len() > 0, starts_with_hash: hash },
                    Ghost(src),
                );
            }
            walk(child, src, w, events, Ghost((depth - 1) as nat));
            assert(events_view(events@) =~= ev1 + walk_children(*node, src@, w1, (i + 1) as nat).0);
            i = i + 1;
        }
        close_block_exec(w, k);
        if directive {
            push_event(events, ExpandEvent::Exit { kind: String::from_str(k) }, Ghost(src));
        }
        assert(events_view(events@) =~= ev0 + walk_node(*node, src@, w0).0);
    }
}

// ── Assembling a file's output ──────────────────────────────────────────────

/// What the expansion does at an event: nothing, insert the expansion of a
/// local include, or emit a system include.
pub enum Decision {
    Skip,
    InsertLocal(Seq<char>),
    EmitSystem,
}

/// The state of assembling a file's output: the plain output and the byte up
/// to which the source has been copied, and the compressor's state.
pub struct ReplayView {
    pub out: Seq<char>,
    pub byte_pos: nat,
    pub cs: CompressorView,
}

/// The compressor entering a directive of kind `kind`.
pub open spec fn enter_directive(cs: CompressorView, kind: Seq<char>) -> CompressorView {
    let c = cs.enter_preproc_directive();
    if spec_is_compound_directive(kind) {
        c.enter_compound_directive(kind)
    } else {
        c.enter_preproc_child(kind)
    }
}

/// One event's effect on the output, given what the expansion decided at it.
pub open spec fn replay_step(r: ReplayView, e: EventView, d: Decision, src: Seq<char>, compress: bool) -> ReplayView {
    match e {
        EventView::Include { start, end, .. } => {
            if compress {
                let cs1 = r.cs.ensure_newline();
                let cs2 = match d {
                    Decision::InsertLocal(t) => cs1.append_block(t),
                    Decision::EmitSystem => cs1.emit_token(text_of(src, start as int, end as int), false),
                    Decision::Skip => cs1,
                };
                ReplayView { cs: cs2, ..r }
            } else {
                let o1 = if start > r.byte_pos {
                    r.out + text_of(src, r.byte_pos as int, start as int)
                } else {
                    r.out
                };
                let o2 = match d {
                    Decision::InsertLocal(t) => with_trailing_newline(o1, t),
                    Decision::EmitSystem => o1 + text_of(src, start as int, end as int),
                    Decision::Skip => o1,
                };
                ReplayView { out: o2, byte_pos: end, ..r }
            }
        },
        EventView::PragmaOnce { start, end } => {
            if compress {
                r
            } else {
                let o1 = if start > r.byte_pos {
                    r.out + text_of(src, r.byte_pos as int, start as int)
                } else {
                    r.out
                };
                ReplayView { out: o1, byte_pos: if end > r.byte_pos { end } else { r.byte_pos }, ..r }
            }
        },
        EventView::Token { start, end, keyword } => {
            if compress {
                let t = text_of(src, start as int, end as int);
                ReplayView { cs: if keyword { r.cs.emit_token(t, false) } else { r.cs.emit_inline(t, false) }, ..r }
            } else {
                r
            }
        },
        EventView::Enter { kind } => {
            if compress {
                ReplayView { cs: enter_directive(r.cs, kind), ..r }
            } else {
                r
            }
        },
        EventView::Sibling { has_children, starts_with_hash } => {
            if compress {
                ReplayView { cs: r.cs.on_next_sibling(has_children, starts_with_hash), ..r }
            } else {
                r
            }
        },
        EventView::Exit { kind } => {
            if compress {
                ReplayView { cs: r.cs.exit_preproc_directive(kind), ..r }
            } else {
                r
            }
        },
    }
}

/// The state after the first `n` events.
pub open spec fn replay(
    events: Seq<EventView>,
    decisions: Seq<Decision>,
    src: Seq<char>,
    compress: bool,
    n: nat,
) -> ReplayView
    decreases n,
{
    if n == 0 {
        ReplayView { out: Seq::empty(), byte_pos: 0, cs: CompressorView::initial() }
    } else {
        replay_step(
            replay(events, decisions, src, compress, (n - 1) as nat),
            events[n - 1],
            decisions[n - 1],
            src,
            compress,
        )
    }
}

/// A file's output: the compressor's output, or the plain output followed by
/// the rest of the source.
pub open spec fn file_output(events: Seq<EventView>, decisions: Seq<Decision>, src: Seq<char>, compress: bool) -> Seq<char> {
    let r = replay(events, decisions, src, compress, events.len());
    let len = encode_utf8(src).len();
    if compress {
        r.cs.output
    } else if len > r.byte_pos {
        r.out + text_of(src, r.byte_pos as int, len as int)
    } else {
        r.out
    }
}

// ── Deciding includes ───────────────────────────────────────────────────────

/// A file (a resolved path, or `<path>` for a system header) in a context.
pub type Key = (Seq<char>, Seq<DirectiveView>);

/// The key under which a system header is recorded.
pub open spec fn system_key(p: Seq<char>) -> Seq<char> {
    "<"@ + p + ">"@
}

/// What a local include was replaced by: the content the resolver gave for
/// the resolved file, its syntax tree, the record of expanding it, and the
/// completed set after that nested expansion.
pub struct NestedExpansion {
    pub source: Seq<char>,
    pub tree: SyntaxTree,
    pub trace: FileTrace,
    pub after: Set<Key>,
}

/// What the expansion may decide at event `e`, and how the set of completed
/// keys may change there: non-include events and includes that name nothing
/// are skipped; a system header is emitted exactly when its key is new, and
/// the key is recorded; a local include is skipped exactly when its key (the
/// resolved path in the include's context) is already completed, and
/// otherwise the resolved file, which must not be one of the files `chain`
/// being expanded, is expanded in the include's context as `nested` records
/// it, that expansion is inserted, and the key is recorded after it.
pub open spec fn step_ok(
    e: EventView,
    d: Decision,
    key: Key,
    before: Set<Key>,
    after: Set<Key>,
    nested: NestedExpansion,
    compress: bool,
    chain: Seq<Seq<char>>,
) -> bool
    decreases nested, 0int, 0int,
{
    match e {
        EventView::Include { target, context, .. } => match target {
            None => d == Decision::Skip && after == before,
            Some(IncludeView::System(p)) => {
                &&& key == (system_key(p), context)
                &&& d == (if before.contains(key) {
                    Decision::Skip
                } else {
                    Decision::EmitSystem
                })
                &&& after == before.insert(key)
            },
            Some(IncludeView::Local(_)) => {
                &&& key.1 == context
                &&& (before.contains(key) <==> d is Skip)
                &&& before.contains(key) ==> after == before
                &&& d !is EmitSystem
                &&& d matches Decision::InsertLocal(text) ==> {
                    &&& !chain.contains(key.0)
                    &&& is_parse_of(nested.tree, nested.source)
                    &&& explains(
                        nested.tree,
                        nested.trace,
                        text,
                        nested.source,
                        context,
                        compress,
                        before,
                        nested.after,
                        chain.push(key.0),
                    )
                    &&& after == nested.after.insert(key)
                }
            },
        },
        _ => d == Decision::Skip && after == before,
    }
}

/// The decisions taken over a file's events, the keys they concern, the
/// completed sets before and after each, and what each inserted local
/// include was expanded from.
pub struct FileTrace {
    pub decisions: Seq<Decision>,
    pub keys: Seq<Key>,
    pub completed: Seq<Set<Key>>,
    pub nested: Seq<NestedExpansion>,
}

/// The first `n` events of a file follow the rules of `step_ok`.
pub open spec fn steps_ok(
    events: Seq<EventView>,
    t: FileTrace,
    compress: bool,
    chain: Seq<Seq<char>>,
    n: nat,
) -> bool
    decreases t, 1int, n,
{
    if n == 0 {
        true
    } else if n <= t.nested.len() {
        &&& steps_ok(events, t, compress, chain, (n - 1) as nat)
        &&& step_ok(
            events[n - 1],
            t.decisions[n - 1],
            t.keys[n - 1],
            t.completed[n - 1],
            t.completed[n as int],
            t.nested[n - 1],
            compress,
            chain,
        )
    } else {
        false
    }
}

/// `t` is a valid record of expanding a file whose events are `events`,
/// starting from the completed set `before` and ending at `after`, while
/// the files `chain` are being expanded (the file itself last).
pub open spec fn trace_ok(
    events: Seq<EventView>,
    t: FileTrace,
    before: Set<Key>,
    after: Set<Key>,
    compress: bool,
    chain: Seq<Seq<char>>,
) -> bool
    decreases t, 2int, 0int,
{
    &&& t.decisions.len() == events.len()
    &&& t.keys.len() == events.len()
    &&& t.nested.len() == events.len()
    &&& t.completed.len() == events.len() + 1
    &&& t.completed[0] == before
    &&& t.completed[events.len() as int] == after
    &&& steps_ok(events, t, compress, chain, events.len())
}

/// `out` is what expanding a file with source `src`, parsed into `tree`, in
/// context `context` gives when the decisions recorded in `t` are taken,
/// going from the completed set `before` to `after`, while the files `chain`
/// are being expanded (the file itself last).
pub open spec fn explains(
    tree: SyntaxTree,
    t: FileTrace,
    out: Seq<char>,
    src: Seq<char>,
    context: Seq<DirectiveView>,
    compress: bool,
    before: Set<Key>,
    after: Set<Key>,
    chain: Seq<Seq<char>>,
) -> bool
    decreases t, 3int, 0int,
{
    &&& tree.wf(src)
    &&& trace_ok(file_events(tree, src, context), t, before, after, compress, chain)
    &&& out == file_output(file_events(tree, src, context), t.decisions, src, compress)
}

proof fn lemma_steps_ok(events: Seq<EventView>, t: FileTrace, compress: bool, chain: Seq<Seq<char>>, n: nat)
    requires
        n <= t.nested.len(),
        forall|j: int|
            0 <= j < n ==> step_ok(
                #[trigger] events[j],
                t.decisions[j],
                t.keys[j],
                t.completed[j],
                t.completed[j + 1],
                t.nested[j],
                compress,
                chain,
            ),
    ensures
        steps_ok(events, t, compress, chain, n),
    decreases n,
{
    if n > 0 {
        lemma_steps_ok(events, t, compress, chain, (n - 1) as nat);
        assert(step_ok(
            events[n - 1],
            t.decisions[n - 1],
            t.keys[n - 1],
            t.completed[n - 1],
            t.completed[n as int],
            t.nested[n - 1],
            compress,
            chain,
        ));
    }
}

// ── Expansion state ─────────────────────────────────────────────────────────

/// Why an expansion failed.
#[derive(Debug)]
pub enum ExpandError {
    /// A file includes itself, directly or through others: the chain of
    /// files being expanded, ending with the one met again.
    Circular(Vec<String>),
    /// A file could not be parsed.
    Parse(ParseError),
    /// The resolver found no file for an include (its message).
    Resolve(String),
    /// The resolver could not read a resolved file (its message).
    Read(String),
    /// The chain of files being expanded is longer than a machine word counts.
    TooDeep,
}

impl ExpandError {
    /// The text of `message`.
    pub open spec fn spec_message(&self) -> Seq<char> {
        match self {
            ExpandError::Circular(participants) => "circular dependency detected: "@ + arrow_joined(
                strings_view(participants@),
            ),
            ExpandError::Parse(e) => e.spec_message(),
            ExpandError::Resolve(msg) => msg@,
            ExpandError::Read(msg) => msg@,
            ExpandError::TooDeep => "include chain too deep"@,
        }
    }

    /// A message that describes the error.
    pub fn message(&self) -> (r: String)
        ensures
            r@ == self.spec_message(),
    {
        match self {
            ExpandError::Circular(participants) => join_arrows("circular dependency detected: ", participants),
            ExpandError::Parse(e) => e.message(),
            ExpandError::Resolve(msg) => msg.clone(),
            ExpandError::Read(msg) => msg.clone(),
            ExpandError::TooDeep => String::from_str("include chain too deep"),
        }
    }
}

/// A parsed file kept for reuse: its path, the source it was parsed from, and its tree.
pub(crate) struct CacheEntry {
    path: String,
    source: String,
    tree: SyntaxTree,
}

impl CacheEntry {
    /// The entry's tree describes its source and is the syntax tree of it.
    pub(crate) closed spec fn holds_parse(&self) -> bool {
        self.tree.wf(self.source@) && is_parse_of(self.tree, self.source@)
    }
}

/// What an expansion keeps across files.
pub struct ExpandState {
    /// Files (resolved paths, or `<path>` for system headers) already
    /// expanded, each with the context it was expanded in.
    completed: Vec<(String, Vec<PreprocDirective>)>,
    /// Files being expanded, outermost first.
    expanding: Vec<String>,
    /// Parsed trees, reused when the same path comes with the same source.
    tree_cache: Vec<CacheEntry>,
}

/// The key of a completed entry.
pub open spec fn entry_key(e: (String, Vec<PreprocDirective>)) -> Key {
    (e.0@, directives_view(e.1@))
}

impl ExpandState {
    /// The set of completed keys.
    pub closed spec fn completed_set(&self) -> Set<Key> {
        self.completed@.map_values(|e: (String, Vec<PreprocDirective>)| entry_key(e)).to_set()
    }

    /// The paths being expanded, outermost first.
    pub closed spec fn expanding_view(&self) -> Seq<Seq<char>> {
        strings_view(self.expanding@)
    }

    /// Every cached tree is the syntax tree of the source it was parsed from.
    pub closed spec fn inv(&self) -> bool {
        forall|i: int| 0 <= i < self.tree_cache@.len() ==> (#[trigger] self.tree_cache@[i]).holds_parse()
    }

    /// A state with nothing completed, nothing being expanded and nothing cached.
    pub fn new() -> (r: Self)
        ensures
            r.inv(),
            r.completed_set() == Set::<Key>::empty(),
            r.expanding_view() == Seq::<Seq<char>>::empty(),
    {
        let r = ExpandState { completed: Vec::new(), expanding: Vec::new(), tree_cache: Vec::new() };
        assert(r.completed_set() =~= Set::<Key>::empty());
        assert(r.expanding_view() =~= Seq::<Seq<char>>::empty());
        r
    }

    /// Whether `path` in `context` has been expanded already.
    pub fn is_completed(&self, path: &str, context: &Vec<PreprocDirective>) -> (b: bool)
        ensures
            b == self.completed_set().contains((path@, directives_view(context@))),
    {
        let ghost keys = self.completed@.map_values(|e: (String, Vec<PreprocDirective>)| entry_key(e));
        let n = self.completed.len();
        let mut i: usize = 0;
        while i < n
            invariant
                n == self.completed@.len(),
                i <= n,
                keys == self.completed@.map_values(|e: (String, Vec<PreprocDirective>)| entry_key(e)),
                forall|j: int| 0 <= j < i ==> keys[j] != (path@, directives_view(context@)),
            decreases n - i,
        {
            let entry = &self.completed[i];
            if str_eq(entry.0.as_str(), path) && directives_eq(&entry.1, context) {
                assert(keys[i as int] == (path@, directives_view(context@)));
                assert(keys.contains((path@, directives_view(context@))));
                return true;
            }
            i = i + 1;
        }
        proof {
            if keys.to_set().contains((path@, directives_view(context@))) {
                let j = choose|j: int| 0 <= j < keys.len() && keys[j] == (path@, directives_view(context@));
                assert(keys[j] != (path@, directives_view(context@)));
            }
        }
        false
    }

    /// Record that `path` in `context` has been expanded.
    pub(crate) fn mark_completed(&mut self, path: String, context: Vec<PreprocDirective>)
        requires
            old(self).inv(),
        ensures
            final(self).inv(),
            final(self).completed_set() == old(self).completed_set().insert((path@, directives_view(context@))),
            final(self).expanding_view() == old(self).expanding_view(),
            final(self).cache() == old(self).cache(),
    {
        let ghost prev = self.completed@;
        let ghost key = (path@, directives_view(context@));
        self.completed.push((path, context));
        proof {
            let f = |e: (String, Vec<PreprocDirective>)| entry_key(e);
            assert(self.completed@.map_values(f) =~= prev.map_values(f).push(key));
            prev.map_values(f).lemma_push_to_set_commute(key);
        }
    }

    /// Whether `path` is being expanded.
    fn is_expanding(&self, path: &str) -> (b: bool)
        ensures
            b == self.expanding_view().contains(path@),
    {
        let n = self.expanding.len();
        let mut i: usize = 0;
        while i < n
            invariant
                n == self.expanding@.len(),
                i <= n,
                forall|j: int| 0 <= j < i ==> self.expanding_view()[j] != path@,
            decreases n - i,
        {
            if str_eq(self.expanding[i].as_str(), path) {
                assert(self.expanding_view()[i as int] == path@);
                return true;
            }
            i = i + 1;
        }
        false
    }

    /// The paths being expanded, then `path`.
    fn chain_to(&self, path: &str) -> (r: Vec<String>)
        ensures
            strings_view(r@) == self.expanding_view().push(path@),
    {
        let mut r = clone_strings(&self.expanding);
        let ghost prev = r@;
        let p = String::from_str(path);
        r.push(p);
        assert(strings_view(r@) =~= strings_view(prev).push(path@));
        r
    }

    fn push_expanding(&mut self, path: &str)
        requires
            old(self).inv(),
        ensures
            final(self).inv(),
            final(self).expanding_view() == old(self).expanding_view().push(path@),
            final(self).completed_set() == old(self).completed_set(),
            final(self).cache() == old(self).cache(),
    {
        let ghost prev = self.expanding@;
        self.expanding.push(String::from_str(path));
        assert(strings_view(self.expanding@) =~= strings_view(prev).push(path@));
    }

    fn pop_expanding(&mut self)
        requires
            old(self).inv(),
            old(self).expanding_view().len() > 0,
        ensures
            final(self).inv(),
            final(self).expanding_view() == old(self).expanding_view().drop_last(),
            final(self).completed_set() == old(self).completed_set(),
            final(self).cache() == old(self).cache(),
    {
        let ghost prev = self.expanding@;
        let _ = self.expanding.pop();
        assert(strings_view(self.expanding@) =~= strings_view(prev).drop_last());
    }

    fn expanding_len(&self) -> (n: usize)
        ensures
            n == self.expanding_view().len(),
    {
        self.expanding.len()
    }

    /// The cached entries, oldest first.
    pub(crate) closed spec fn cache(&self) -> Seq<CacheEntry> {
        self.tree_cache@
    }

    /// Takes the cached tree for `path` parsed from `source`, if there is one:
    /// the first such entry leaves the cache.
    fn take_cached(&mut self, path: &str, source: &str) -> (r: Option<CacheEntry>)
        requires
            old(self).inv(),
        ensures
            final(self).inv(),
            final(self).completed_set() == old(self).completed_set(),
            final(self).expanding_view() == old(self).expanding_view(),
            r matches Some(e) ==> e.holds_parse() && e.path@ == path@ && e.source@ == source@,
            r is Some <==> exists|j: int|
                0 <= j < old(self).cache().len() && (#[trigger] old(self).cache()[j]).path@ == path@
                    && old(self).cache()[j].source@ == source@,
            r matches Some(e) ==> exists|j: int|
                0 <= j < old(self).cache().len() && #[trigger] old(self).cache()[j] == e
                    && final(self).cache() == old(self).cache().remove(j) && forall|k: int|
                    0 <= k < j ==> !((#[trigger] old(self).cache()[k]).path@ == path@
                        && old(self).cache()[k].source@ == source@),
            r is None ==> final(self).cache() == old(self).cache(),
    {
        let n = self.tree_cache.len();
        let mut i: usize = 0;
        while i < n
            invariant
                n == self.tree_cache@.len(),
                i <= n,
                self.inv(),
                self.completed == old(self).completed,
                self.expanding == old(self).expanding,
                self.tree_cache == old(self).tree_cache,
                forall|k: int|
                    0 <= k < i ==> !((#[trigger] self.tree_cache@[k]).path@ == path@
                        && self.tree_cache@[k].source@ == source@),
            decreases n - i,
        {
            if str_eq(self.tree_cache[i].path.as_str(), path) && str_eq(
                self.tree_cache[i].source.as_str(),
                source,
            ) {
                let ghost prev = self.tree_cache@;
                let e = self.tree_cache.remove(i);
                assert(prev[i as int] == e);
                assert forall|j: int| 0 <= j < self.tree_cache@.len() implies (#[trigger] self.tree_cache@[j]).holds_parse() by {
                    if j < i {
                        assert(self.tree_cache@[j] == prev[j]);
                    } else {
                        assert(self.tree_cache@[j] == prev[j + 1]);
                    }
                }
                assert(self.tree_cache@ =~= prev.remove(i as int));
                return Some(e);
            }
            i = i + 1;
        }
        None
    }

    /// Keeps `e` in the cache, after the entries already there.
    fn put_cached(&mut self, e: CacheEntry)
        requires
            old(self).inv(),
            e.holds_parse(),
        ensures
            final(self).inv(),
            final(self).completed_set() == old(self).completed_set(),
            final(self).expanding_view() == old(self).expanding_view(),
            final(self).cache() == old(self).cache().push(e),
    {
        let ghost prev = self.tree_cache@;
        self.tree_cache.push(e);
        assert forall|j: int| 0 <= j < self.tree_cache@.len() implies (#[trigger] self.tree_cache@[j]).holds_parse() by {
            if j < prev.len() {
                assert(self.tree_cache@[j] == prev[j]);
            }
        }
    }
}

// ── The expansion ───────────────────────────────────────────────────────────

/// The events of a file whose syntax tree is `tree`, walked in context `context`.
pub open spec fn file_events(tree: SyntaxTree, src: Seq<char>, context: Seq<DirectiveView>) -> Seq<EventView> {
    walk_node(tree.root, src, WalkView { context, saved: Seq::empty() }).0
}

/// `out` is a valid expansion of the file `src` in context `context`: for
/// some syntax tree of it and some answers of the resolver, the output
/// assembled from its events, with includes decided by the rules of
/// `step_ok`, going from the completed set `before` to `after`, while the
/// files `chain` are being expanded (the file itself last).
pub open spec fn expansion_of(
    out: Seq<char>,
    src: Seq<char>,
    context: Seq<DirectiveView>,
    compress: bool,
    before: Set<Key>,
    after: Set<Key>,
    chain: Seq<Seq<char>>,
) -> bool {
    exists|tree: SyntaxTree, t: FileTrace| #[trigger] explains(tree, t, out, src, context, compress, before, after, chain)
}

/// The resolver's answers behind event `e`: the key of a local include is
/// what resolving its path from the file being expanded (the last of
/// `chain`) gives, and the content of a file inserted for it is what
/// reading that key gives, its own answers following the same rules.
pub open spec fn answer_ok<R: FileResolver>(
    resolver: R,
    e: EventView,
    d: Decision,
    key: Key,
    nested: NestedExpansion,
    chain: Seq<Seq<char>>,
) -> bool
    decreases nested, 0int, 0int,
{
    match e {
        EventView::Include { target: Some(IncludeView::Local(p)), context, .. } => {
            &&& resolver.resolves_to(chain.last(), p, Ok::<Seq<char>, Seq<char>>(key.0))
            &&& d matches Decision::InsertLocal(_) ==> {
                &&& resolver.reads_as(key.0, Ok::<Seq<char>, Seq<char>>(nested.source))
                &&& trace_answers_ok(
                    resolver,
                    file_events(nested.tree, nested.source, context),
                    nested.trace,
                    chain.push(key.0),
                )
            }
        },
        _ => true,
    }
}

/// The first `n` events of a record follow the resolver's answers.
pub open spec fn answers_ok<R: FileResolver>(
    resolver: R,
    events: Seq<EventView>,
    t: FileTrace,
    chain: Seq<Seq<char>>,
    n: nat,
) -> bool
    decreases t, 1int, n,
{
    if n == 0 {
        true
    } else if n <= t.nested.len() {
        &&& answers_ok(resolver, events, t, chain, (n - 1) as nat)
        &&& answer_ok(resolver, events[n - 1], t.decisions[n - 1], t.keys[n - 1], t.nested[n - 1], chain)
    } else {
        false
    }
}

/// A whole record follows the resolver's answers, nested files included.
pub open spec fn trace_answers_ok<R: FileResolver>(
    resolver: R,
    events: Seq<EventView>,
    t: FileTrace,
    chain: Seq<Seq<char>>,
) -> bool
    decreases t, 2int, 0int,
{
    answers_ok(resolver, events, t, chain, events.len())
}

proof fn lemma_answers_ok<R: FileResolver>(
    resolver: R,
    events: Seq<EventView>,
    t: FileTrace,
    chain: Seq<Seq<char>>,
    n: nat,
)
    requires
        n <= t.nested.len(),
        forall|j: int|
            0 <= j < n ==> answer_ok(resolver, #[trigger] events[j], t.decisions[j], t.keys[j], t.nested[j], chain),
    ensures
        answers_ok(resolver, events, t, chain, n),
    decreases n,
{
    if n > 0 {
        lemma_answers_ok(resolver, events, t, chain, (n - 1) as nat);
        assert(answer_ok(resolver, events[n - 1], t.decisions[n - 1], t.keys[n - 1], t.nested[n - 1], chain));
    }
}

/// `out` is the expansion of the file `src`, parsed into `tree`, in context
/// `context`, with the answers of `resolver`: for some record of the
/// decisions, the output assembled from the tree's events, going from the
/// completed set `before` to `after` while the files `chain` are being
/// expanded (the file itself last).
pub open spec fn expansion_from<R: FileResolver>(
    resolver: R,
    tree: SyntaxTree,
    out: Seq<char>,
    src: Seq<char>,
    context: Seq<DirectiveView>,
    compress: bool,
    before: Set<Key>,
    after: Set<Key>,
    chain: Seq<Seq<char>>,
) -> bool {
    exists|t: FileTrace|
        #[trigger] explains(tree, t, out, src, context, compress, before, after, chain) && trace_answers_ok(
            resolver,
            file_events(tree, src, context),
            t,
            chain,
        )
}

/// `out` is the expansion of the file `src`, parsed by tree-sitter's C++
/// grammar, with the answers of `resolver`.
pub open spec fn expansion_by<R: FileResolver>(
    resolver: R,
    out: Seq<char>,
    src: Seq<char>,
    context: Seq<DirectiveView>,
    compress: bool,
    before: Set<Key>,
    after: Set<Key>,
    chain: Seq<Seq<char>>,
) -> bool {
    exists|tree: SyntaxTree|
        is_parse_of(tree, src) && #[trigger] expansion_from(
            resolver,
            tree,
            out,
            src,
            context,
            compress,
            before,
            after,
            chain,
        )
}

/// No event of the file `src`, parsed into `tree`, is an `#include`.
pub open spec fn has_no_includes(tree: SyntaxTree, src: Seq<char>, context: Seq<DirectiveView>) -> bool {
    forall|i: int|
        0 <= i < file_events(tree, src, context).len() ==> !(#[trigger] file_events(tree, src, context)[i] is Include)
}

/// `m` is the message with which `resolver` refused to resolve some include.
pub open spec fn refused_resolving<R: FileResolver>(resolver: R, m: Seq<char>) -> bool {
    exists|a: Seq<char>, b: Seq<char>| #[trigger] resolver.resolves_to(a, b, Err::<Seq<char>, Seq<char>>(m))
}

/// `m` is the message with which `resolver` refused to read some resolved file.
pub open spec fn refused_reading<R: FileResolver>(resolver: R, m: Seq<char>) -> bool {
    exists|a: Seq<char>| #[trigger] resolver.reads_as(a, Err::<Seq<char>, Seq<char>>(m))
}

/// A chain of files being expanded that meets its last file again.
pub open spec fn is_cycle(chain: Seq<Seq<char>>) -> bool {
    chain.len() >= 2 && chain.drop_last().contains(chain.last())
}

proof fn lemma_replay_prefix(
    events: Seq<EventView>,
    d1: Seq<Decision>,
    d2: Seq<Decision>,
    src: Seq<char>,
    compress: bool,
    n: nat,
)
    requires
        n <= d1.len(),
        n <= d2.len(),
        d1.take(n as int) == d2.take(n as int),
    ensures
        replay(events, d1, src, compress, n) == replay(events, d2, src, compress, n),
    decreases n,
{
    if n > 0 {
        assert(d1.take(n - 1) =~= d1.take(n as int).take(n - 1));
        assert(d2.take(n - 1) =~= d2.take(n as int).take(n - 1));
        lemma_replay_prefix(events, d1, d2, src, compress, (n - 1) as nat);
        assert(d1[n - 1] == d1.take(n as int)[n - 1]);
        assert(d2[n - 1] == d2.take(n as int)[n - 1]);
    }
}

fn push_block(out: &mut String, text: &str)
    ensures
        final(out)@ == with_trailing_newline(old(out)@, text@),
{
    push_str(out, text);
    if !crate::text::ends_with_char(text, '\n') {
        crate::text::push_char(out, '\n');
    }
}

fn system_key_string(p: &str) -> (r: String)
    ensures
        r@ == system_key(p@),
{
    let mut k = String::from_str("<");
    k.append(p);
    k.append(">");
    proof {
        reveal_strlit("<");
        reveal_strlit(">");
    }
    k
}

/// Expand one file: a file already being expanded is a cycle; otherwise it
/// is parsed (or its cached tree reused) and expanded by `expand_tree`, and
/// its tree is kept in the cache.
fn expand_file<R: FileResolver>(
    path: &str,
    source: &str,
    parent: &Vec<PreprocDirective>,
    state: &mut ExpandState,
    resolver: &R,
    compress: bool,
) -> (r: Result<String, ExpandError>)
    requires
        old(state).inv(),
    ensures
        final(state).inv(),
        r matches Ok(out) ==> {
            &&& final(state).expanding_view() == old(state).expanding_view()
            &&& old(state).completed_set().subset_of(final(state).completed_set())
            &&& !old(state).expanding_view().contains(path@)
            &&& expansion_by(
                *resolver,
                out@,
                source@,
                directives_view(parent@),
                compress,
                old(state).completed_set(),
                final(state).completed_set(),
                old(state).expanding_view().push(path@),
            )
            &&& forall|e: CacheEntry| old(state).cache().contains(e) ==> #[trigger] final(state).cache().contains(e)
            &&& exists|j: int|
                0 <= j < final(state).cache().len() && (#[trigger] final(state).cache()[j]).path@ == path@
                    && final(state).cache()[j].source@ == source@
        },
        old(state).expanding_view().contains(path@) ==> {
            &&& r matches Err(ExpandError::Circular(chain)) && strings_view(chain@) == old(
                state,
            ).expanding_view().push(path@)
            &&& final(state).completed_set() == old(state).completed_set()
            &&& final(state).expanding_view() == old(state).expanding_view()
            &&& final(state).cache() == old(state).cache()
        },
        !old(state).expanding_view().contains(path@) && old(state).expanding_view().len() == usize::MAX ==> r
            matches Err(ExpandError::TooDeep),
        r matches Err(ExpandError::Circular(chain)) ==> is_cycle(strings_view(chain@)),
        r matches Err(ExpandError::Parse(e)) ==> e == ParseError::MalformedTree,
        r matches Err(ExpandError::Resolve(m)) ==> refused_resolving(*resolver, m@),
        r matches Err(ExpandError::Read(m)) ==> refused_reading(*resolver, m@),
    decreases usize::MAX - old(state).expanding_view().len(), 1int,
{
    if state.is_expanding(path) {
        let chain = state.chain_to(path);
        proof {
            let c = strings_view(chain@);
            assert(c.drop_last() =~= state.expanding_view());
        }
        return Err(ExpandError::Circular(chain));
    }
    if state.expanding_len() == usize::MAX {
        return Err(ExpandError::TooDeep);
    }
    let ghost completed0 = state.completed_set();
    let ghost expanding0 = state.expanding_view();
    let ghost cache0 = state.cache();
    state.push_expanding(path);
    let ghost cache1 = state.cache();
    let entry = match state.take_cached(path, source) {
        Some(e) => e,
        None => {
            let tree = match parse_source(source) {
                Ok(t) => t,
                Err(e) => {
                    return Err(ExpandError::Parse(e));
                },
            };
            CacheEntry { path: String::from_str(path), source: String::from_str(source), tree }
        },
    };
    let ghost cache2 = state.cache();
    proof {
        assert forall|e: CacheEntry| cache1.contains(e) implies cache2.contains(e) || e == entry by {
            if cache1.contains(e) && e != entry {
                let x = choose|x: int| 0 <= x < cache1.len() && cache1[x] == e;
                if cache2 != cache1 {
                    let j = choose|j: int|
                        0 <= j < cache1.len() && #[trigger] cache1[j] == entry && cache2 == cache1.remove(j)
                            && forall|k: int|
                            0 <= k < j ==> !((#[trigger] cache1[k]).path@ == path@ && cache1[k].source@ == source@);
                    assert(x != j);
                    if x < j {
                        assert(cache2[x] == e);
                    } else {
                        assert(cache2[x - 1] == e);
                    }
                }
            }
        }
    }
    let r = expand_tree(path, source, &entry.tree, parent, state, resolver, compress);
    match r {
        Ok(out) => {
            let ghost cache3 = state.cache();
            state.put_cached(entry);
            state.pop_expanding();
            proof {
                assert(state.expanding_view() =~= expanding0);
                let last = state.cache().len() - 1;
                assert(state.cache()[last] == entry);
                assert forall|e: CacheEntry| cache0.contains(e) implies #[trigger] state.cache().contains(e) by {
                    assert(cache1.contains(e));
                    if e == entry {
                        assert(state.cache()[last] == e);
                    } else {
                        assert(cache2.contains(e));
                        assert(cache3.contains(e));
                        let x = choose|x: int| 0 <= x < cache3.len() && cache3[x] == e;
                        assert(state.cache()[x] == e);
                    }
                }
            }
            Ok(out)
        },
        Err(e) => Err(e),
    }
}

/// Expand a file whose syntax tree is `tree`, while it is the last of the
/// files being expanded: its events in order, with every include decided
/// and the expansion of each new local include inserted. Only an include
/// can make it fail.
fn expand_tree<R: FileResolver>(
    path: &str,
    source: &str,
    tree: &SyntaxTree,
    parent: &Vec<PreprocDirective>,
    state: &mut ExpandState,
    resolver: &R,
    compress: bool,
) -> (r: Result<String, ExpandError>)
    requires
        old(state).inv(),
        tree.wf(source@),
        old(state).expanding_view().len() > 0,
        old(state).expanding_view().last() == path@,
        old(state).expanding_view().len() <= usize::MAX,
    ensures
        final(state).inv(),
        r matches Ok(out) ==> {
            &&& final(state).expanding_view() == old(state).expanding_view()
            &&& old(state).completed_set().subset_of(final(state).completed_set())
            &&& expansion_from(
                *resolver,
                *tree,
                out@,
                source@,
                directives_view(parent@),
                compress,
                old(state).completed_set(),
                final(state).completed_set(),
                old(state).expanding_view(),
            )
            &&& forall|e: CacheEntry| old(state).cache().contains(e) ==> #[trigger] final(state).cache().contains(e)
        },
        has_no_includes(*tree, source@, directives_view(parent@)) ==> r is Ok,
        r matches Err(ExpandError::Circular(chain)) ==> is_cycle(strings_view(chain@)),
        r matches Err(ExpandError::Parse(e)) ==> e == ParseError::MalformedTree,
        r matches Err(ExpandError::Resolve(m)) ==> refused_resolving(*resolver, m@),
        r matches Err(ExpandError::Read(m)) ==> refused_reading(*resolver, m@),
    decreases usize::MAX - old(state).expanding_view().len() + 1, 0int,
{
    let ghost completed0 = state.completed_set();
    let ghost expanding0 = state.expanding_view().drop_last();
    let ghost cache0 = state.cache();
    proof {
        assert(state.expanding_view() =~= expanding0.push(path@));
    }
    let ghost tree_g = *tree;
    let mut ws = WalkState { context: clone_directives(parent), saved: Vec::new() };
    let mut events: Vec<ExpandEvent> = Vec::new();
    assert(ws.saved@.map_values(|n: usize| n as int) =~= Seq::<int>::empty());
    assert(ws@ == (WalkView { context: directives_view(parent@), saved: Seq::empty() }));
    assert(events_view(events@) =~= Seq::<EventView>::empty());
    walk(&tree.root, source, &mut ws, &mut events, Ghost(usize::MAX as nat));
    let ghost ev = events_view(events@);
    assert(ev =~= file_events(tree_g, source@, directives_view(parent@)));
    let mut out = string_with_capacity(source.len());
    let mut byte_pos: usize = 0;
    let mut cs = CompressorState::new(source.len() / 2);
    let ghost mut dec: Seq<Decision> = Seq::empty();
    let ghost mut keys: Seq<Key> = Seq::empty();
    let ghost mut snaps: Seq<Set<Key>> = seq![completed0];
    let ghost mut nested: Seq<NestedExpansion> = Seq::empty();
    proof {
        crate::text::lemma_char_range_ends(source@);
    }
    let n = events.len();
    let mut i: usize = 0;
    while i < n
        invariant
            n == events@.len(),
            i <= n,
            ev == events_view(events@),
            events_in_range(ev, source@),
            state.inv(),
            state.expanding_view() == expanding0.push(path@),
            expanding0.push(path@) == old(state).expanding_view(),
            completed0 == old(state).completed_set(),
            completed0.subset_of(state.completed_set()),
            forall|e: CacheEntry| cache0.contains(e) ==> #[trigger] state.cache().contains(e),
            tree_g == *tree,
            old(state).expanding_view().len() <= usize::MAX,
            has_no_includes(tree_g, source@, directives_view(parent@)) ==> forall|j: int|
                0 <= j < n ==> !(#[trigger] ev[j] is Include),
            tree_g.wf(source@),
            ev == file_events(tree_g, source@, directives_view(parent@)),
            dec.len() == i,
            keys.len() == i,
            snaps.len() == i + 1,
            snaps[0] == completed0,
            snaps[i as int] == state.completed_set(),
            nested.len() == i,
            forall|j: int|
                0 <= j < i ==> step_ok(
                    #[trigger] ev[j],
                    dec[j],
                    keys[j],
                    snaps[j],
                    snaps[j + 1],
                    nested[j],
                    compress,
                    expanding0.push(path@),
                ),
            forall|j: int|
                0 <= j < i ==> answer_ok(*resolver, #[trigger] ev[j], dec[j], keys[j], nested[j], expanding0.push(path@)),
            replay(ev, dec, source@, compress, i as nat) == (ReplayView {
                out: out@,
                byte_pos: byte_pos as nat,
                cs: cs@,
            }),
            char_range(source@, byte_pos as int, byte_pos as int),
            cs@.compound_depth <= i,
        decreases n - i,
    {
        let ghost r0 = replay(ev, dec, source@, compress, i as nat);
        let ghost set0 = state.completed_set();
        let ghost mut d = Decision::Skip;
        let ghost mut key: Key = (Seq::empty(), Seq::empty());
        let ghost mut inner: NestedExpansion = arbitrary();
        assert(event_in_range(ev[i as int], source@));
        match &events[i] {
            ExpandEvent::Include { start, end, target, context } => {
                let start = *start;
                let end = *end;
                assert(ev[i as int] is Include);
                if !compress && start > byte_pos {
                    push_str(&mut out, slice_text(source, byte_pos, start));
                }
                if compress {
                    cs.ensure_newline();
                }
                match target {
                    Some(Include::Local(p)) => {
                        let resolved = match resolver.resolve(path, p) {
                            Ok(x) => x,
                            Err(m) => {
                                assert(resolver.resolves_to(path@, p@, Err::<Seq<char>, Seq<char>>(m@)));
                                assert(refused_resolving(*resolver, m@));
                                return Err(ExpandError::Resolve(m));
                            },
                        };
                        proof {
                            key = (resolved@, directives_view(context@));
                        }
                        if !state.is_completed(resolved.as_str(), context) {
                            let ghost nested_before = state.completed_set();
                            let content = match resolver.read_content(resolved.as_str()) {
                                Ok(c) => c,
                                Err(m) => {
                                    assert(resolver.reads_as(resolved@, Err::<Seq<char>, Seq<char>>(m@)));
                                    assert(refused_reading(*resolver, m@));
                                    return Err(ExpandError::Read(m));
                                },
                            };
                            let expanded = match expand_file(
                                resolved.as_str(),
                                content.as_str(),
                                context,
                                state,
                                resolver,
                                compress,
                            ) {
                                Ok(x) => x,
                                Err(e) => {
                                    return Err(e);
                                },
                            };
                            if compress {
                                cs.append_block(expanded.as_str());
                            } else {
                                push_block(&mut out, expanded.as_str());
                            }
                            let ghost mid = state.completed_set();
                            state.mark_completed(resolved, clone_directives(context));
                            proof {
                                d = Decision::InsertLocal(expanded@);
                                let ntree = choose|tree: SyntaxTree|
                                    is_parse_of(tree, content@) && #[trigger] expansion_from(
                                        *resolver,
                                        tree,
                                        expanded@,
                                        content@,
                                        directives_view(context@),
                                        compress,
                                        nested_before,
                                        mid,
                                        expanding0.push(path@).push(resolved@),
                                    );
                                let ntrace = choose|t: FileTrace|
                                    #[trigger] explains(
                                        ntree,
                                        t,
                                        expanded@,
                                        content@,
                                        directives_view(context@),
                                        compress,
                                        nested_before,
                                        mid,
                                        expanding0.push(path@).push(resolved@),
                                    ) && trace_answers_ok(
                                        *resolver,
                                        file_events(ntree, content@, directives_view(context@)),
                                        t,
                                        expanding0.push(path@).push(resolved@),
                                    );
                                inner = NestedExpansion { source: content@, tree: ntree, trace: ntrace, after: mid };
                            }
                        }
                    },
                    Some(Include::System(p)) => {
                        let k = system_key_string(p);
                        proof {
                            key = (k@, directives_view(context@));
                        }
                        if !state.is_completed(k.as_str(), context) {
                            let t = slice_text(source, start, end);
                            if compress {
                                cs.emit_token(t, false);
                            } else {
                                push_str(&mut out, t);
                            }
                            state.mark_completed(k, clone_directives(context));
                            proof {
                                d = Decision::EmitSystem;
                            }
                        } else {
                            proof {
                                assert(set0.insert(key) =~= set0);
                            }
                        }
                    },
                    None => {},
                }
                if !compress {
                    byte_pos = end;
                }
            },
            ExpandEvent::PragmaOnce { start, end } => {
                if !compress {
                    if *start > byte_pos {
                        push_str(&mut out, slice_text(source, byte_pos, *start));
                    }
                    if *end > byte_pos {
                        byte_pos = *end;
                    }
                }
            },
            ExpandEvent::Token { start, end, keyword } => {
                if compress {
                    if *keyword {
                        cs.emit_token(slice_text(source, *start, *end), false);
                    } else {
                        cs.emit_inline_token(slice_text(source, *start, *end), false);
                    }
                }
            },
            ExpandEvent::Enter { kind } => {
                if compress {
                    cs.enter_preproc_directive();
                    if is_compound_directive(kind.as_str()) {
                        cs.enter_compound_directive(kind.as_str());
                    } else {
                        cs.enter_preproc_child(kind.as_str());
                    }
                }
            },
            ExpandEvent::Sibling { has_children, starts_with_hash } => {
                if compress {
                    cs.on_next_sibling_parts(*has_children, *starts_with_hash);
                }
            },
            ExpandEvent::Exit { kind } => {
                if compress {
                    cs.exit_preproc_directive(kind.as_str());
                }
            },
        }
        proof {
            let dec2 = dec.push(d);
            assert(dec.take(i as int) =~= dec2.take(i as int));
            lemma_replay_prefix(ev, dec, dec2, source@, compress, i as nat);
            assert(dec2[i as int] == d);
            dec = dec2;
            keys = keys.push(key);
            nested = nested.push(inner);
            snaps = snaps.push(state.completed_set());
            assert(step_ok(
                ev[i as int],
                dec[i as int],
                keys[i as int],
                snaps[i as int],
                snaps[i + 1],
                nested[i as int],
                compress,
                expanding0.push(path@),
            ));
            assert(answer_ok(*resolver, ev[i as int], dec[i as int], keys[i as int], nested[i as int], expanding0.push(path@)));
            assert(set0.subset_of(state.completed_set()));
        }
        i = i + 1;
    }
    proof {
        crate::text::lemma_char_range_ends(source@);
    }
    let len = crate::text::byte_len(source);
    if !compress && len > byte_pos {
        assert(char_range(source@, byte_pos as int, len as int));
        push_str(&mut out, slice_text(source, byte_pos, len));
    }
    let result = if compress {
        cs.finish()
    } else {
        out
    };
    proof {
        let t = FileTrace { decisions: dec, keys, completed: snaps, nested };
        lemma_steps_ok(ev, t, compress, expanding0.push(path@), n as nat);
        lemma_answers_ok(*resolver, ev, t, expanding0.push(path@), n as nat);
        assert(tree_g.wf(source@));
        assert(trace_ok(ev, t, completed0, state.completed_set(), compress, expanding0.push(path@)));
        assert(result@ == file_output(ev, dec, source@, compress));
        assert(explains(
            tree_g,
            t,
            result@,
            source@,
            directives_view(parent@),
            compress,
            completed0,
            state.completed_set(),
            expanding0.push(path@),
        ));
        assert(expansion_from(
            *resolver,
            tree_g,
            result@,
            source@,
            directives_view(parent@),
            compress,
            completed0,
            state.completed_set(),
            expanding0.push(path@),
        ));
    }
    Ok(result)
}

/// Options for the expansion.
pub struct ExpandOptions {
    /// Whether to apply the meaning-preserving token-level compression.
    pub compress: bool,
}

impl Default for ExpandOptions {
    fn default() -> (r: Self)
        ensures
            r.compress == false,
    {
        ExpandOptions { compress: false }
    }
}

/// Expand an entry file, already parsed into `tree`, by recursively
/// inlining its `#include` dependencies: the tree-based part of `expand`.
///
/// It succeeds on every source without an `#include`; otherwise the
/// resolver's answers and the parses of the included files decide.
pub fn expand_parsed<R: FileResolver>(
    entry_path: &str,
    entry_source: &str,
    tree: &SyntaxTree,
    resolver: &R,
    opts: &ExpandOptions,
) -> (r: Result<String, ExpandError>)
    requires
        tree.wf(entry_source@),
    ensures
        r matches Ok(out) ==> exists|after: Set<Key>|
            #[trigger] expansion_from(
                *resolver,
                *tree,
                out@,
                entry_source@,
                Seq::empty(),
                opts.compress,
                Set::empty(),
                after,
                seq![entry_path@],
            ),
        has_no_includes(*tree, entry_source@, Seq::empty()) ==> r is Ok,
        r matches Err(ExpandError::Circular(chain)) ==> is_cycle(strings_view(chain@)),
        r matches Err(ExpandError::Parse(e)) ==> e == ParseError::MalformedTree,
        r matches Err(ExpandError::Resolve(m)) ==> refused_resolving(*resolver, m@),
        r matches Err(ExpandError::Read(m)) ==> refused_reading(*resolver, m@),
{
    let mut state = ExpandState::new();
    let context: Vec<PreprocDirective> = Vec::new();
    assert(directives_view(context@) =~= Seq::<DirectiveView>::empty());
    state.push_expanding(entry_path);
    assert(state.expanding_view() =~= seq![entry_path@]);
    expand_tree(entry_path, entry_source, tree, &context, &mut state, resolver, opts.compress)
}

/// `out` is the expansion of the file `src`, as tree-sitter's C++ grammar
/// parses it, with the answers of `resolver`: whichever tree is the parse
/// of `src`, the expansion from it gives `out`.
pub open spec fn expansion_by_parse<R: FileResolver>(
    resolver: R,
    out: Seq<char>,
    src: Seq<char>,
    context: Seq<DirectiveView>,
    compress: bool,
    before: Set<Key>,
    after: Set<Key>,
    chain: Seq<Seq<char>>,
) -> bool {
    forall|tree: SyntaxTree|
        is_parse_of(tree, src) ==> #[trigger] expansion_from(
            resolver,
            tree,
            out,
            src,
            context,
            compress,
            before,
            after,
            chain,
        )
}

/// No event of the syntax tree of `src`, in the empty context, is an `#include`.
pub open spec fn source_has_no_includes(src: Seq<char>) -> bool {
    forall|tree: SyntaxTree| is_parse_of(tree, src) ==> #[trigger] has_no_includes(tree, src, Seq::empty())
}

/// Expand an entry file by recursively inlining its `#include` dependencies.
///
/// Every local include is resolved through `resolver`; the first time a
/// resolved file is met in a given preprocessor context its expansion takes
/// the include's place, later times the include just disappears. System
/// includes are kept, once per context; `#pragma once` lines are dropped.
/// The entry is parsed with `parse_source` and expanded by `expand_parsed`:
/// an entry whose tree cannot be held fails to parse, and one without an
/// `#include` always expands.
pub fn expand<R: FileResolver>(
    entry_path: &str,
    entry_source: &str,
    resolver: &R,
    opts: &ExpandOptions,
) -> (r: Result<String, ExpandError>)
    ensures
        r matches Ok(out) ==> exists|after: Set<Key>| #[trigger]
            expansion_by(*resolver, out@, entry_source@, Seq::empty(), opts.compress, Set::empty(), after, seq![entry_path@]),
        r matches Ok(out) ==> exists|after: Set<Key>| #[trigger]
            expansion_by_parse(*resolver, out@, entry_source@, Seq::empty(), opts.compress, Set::empty(), after, seq![entry_path@]),
        !parse_is_held(entry_source@) ==> r matches Err(ExpandError::Parse(ParseError::MalformedTree)),
        r matches Err(ExpandError::Parse(e)) ==> e == ParseError::MalformedTree,
        r matches Err(ExpandError::Resolve(m)) ==> refused_resolving(*resolver, m@),
        r matches Err(ExpandError::Read(m)) ==> refused_reading(*resolver, m@),
        parse_is_held(entry_source@) && source_has_no_includes(entry_source@) ==> r is Ok,
        r matches Err(ExpandError::Circular(chain)) ==> is_cycle(strings_view(chain@)),
{
    let tree = match parse_source(entry_source) {
        Ok(t) => t,
        Err(e) => {
            return Err(ExpandError::Parse(e));
        },
    };
    proof {
        if source_has_no_includes(entry_source@) {
            assert(has_no_includes(tree, entry_source@, Seq::empty()));
        }
    }
    let r = expand_parsed(entry_path, entry_source, &tree, resolver, opts);
    proof {
        if r is Ok {
            let out = r->Ok_0;
            let after = choose|after: Set<Key>|
                #[trigger] expansion_from(
                    *resolver,
                    tree,
                    out@,
                    entry_source@,
                    Seq::empty(),
                    opts.compress,
                    Set::empty(),
                    after,
                    seq![entry_path@],
                );
            assert(expansion_by(*resolver, out@, entry_source@, Seq::empty(), opts.compress, Set::empty(), after, seq![entry_path@]));
            assert forall|t2: SyntaxTree| is_parse_of(t2, entry_source@) implies #[trigger] expansion_from(
                *resolver,
                t2,
                out@,
                entry_source@,
                Seq::empty(),
                opts.compress,
                Set::empty(),
                after,
                seq![entry_path@],
            ) by {
                lemma_parse_decides_expansion(
                    *resolver,
                    tree,
                    t2,
                    out@,
                    entry_source@,
                    Seq::empty(),
                    opts.compress,
                    Set::empty(),
                    after,
                    seq![entry_path@],
                );
            }
            assert(expansion_by_parse(*resolver, out@, entry_source@, Seq::empty(), opts.compress, Set::empty(), after, seq![entry_path@]));
        }
    }
    r
}

// ── Laws ────────────────────────────────────────────────────────────────────

proof fn lemma_steps_ok_each(events: Seq<EventView>, t: FileTrace, compress: bool, chain: Seq<Seq<char>>, n: nat, j: int)
    requires
        steps_ok(events, t, compress, chain, n),
        0 <= j < n,
    ensures
        step_ok(events[j], t.decisions[j], t.keys[j], t.completed[j], t.completed[j + 1], t.nested[j], compress, chain),
        j < t.nested.len(),
    decreases n,
{
    if j < n - 1 {
        lemma_steps_ok_each(events, t, compress, chain, (n - 1) as nat, j);
    }
}

/// One decision only adds to the completed set; a decision that puts
/// something in finds its key new and records it.
proof fn lemma_step_grows(
    e: EventView,
    d: Decision,
    key: Key,
    before: Set<Key>,
    after: Set<Key>,
    nested: NestedExpansion,
    compress: bool,
    chain: Seq<Seq<char>>,
)
    requires
        step_ok(e, d, key, before, after, nested, compress, chain),
    ensures
        before.subset_of(after),
        d !is Skip ==> !before.contains(key) && after.contains(key),
    decreases nested, 0int,
{
    if let Decision::InsertLocal(text) = d {
        if let EventView::Include { target: Some(IncludeView::Local(_)), context, .. } = e {
            let events = file_events(nested.tree, nested.source, context);
            lemma_trace_grows(events, nested.trace, before, nested.after, compress, chain.push(key.0));
        }
    }
}

/// Along a file's record the completed sets only grow.
proof fn lemma_trace_grows(
    events: Seq<EventView>,
    t: FileTrace,
    before: Set<Key>,
    after: Set<Key>,
    compress: bool,
    chain: Seq<Seq<char>>,
)
    requires
        trace_ok(events, t, before, after, compress, chain),
    ensures
        forall|i: int, j: int|
            0 <= i <= j <= events.len() ==> (#[trigger] t.completed[i]).subset_of(#[trigger] t.completed[j]),
    decreases t, 1int,
{
    let n = events.len();
    assert forall|j: int| 0 <= j < n implies (#[trigger] t.completed[j]).subset_of(t.completed[j + 1]) by {
        lemma_steps_ok_each(events, t, compress, chain, n, j);
        lemma_step_grows(events[j], t.decisions[j], t.keys[j], t.completed[j], t.completed[j + 1], t.nested[j], compress, chain);
    }
    assert forall|i: int, j: int| 0 <= i <= j <= n implies (#[trigger] t.completed[i]).subset_of(
        #[trigger] t.completed[j],
    ) by {
        lemma_chain_grows(t.completed, i, j);
    }
}

proof fn lemma_chain_grows(c: Seq<Set<Key>>, i: int, j: int)
    requires
        0 <= i <= j < c.len(),
        forall|k: int| 0 <= k < c.len() - 1 ==> (#[trigger] c[k]).subset_of(c[k + 1]),
    ensures
        c[i].subset_of(c[j]),
    decreases j - i,
{
    if i < j {
        lemma_chain_grows(c, i, j - 1);
        assert(c[j - 1].subset_of(c[j]));
    }
}

/// Within one file, a file or a system header in a given context is put in
/// at most once, and never when it was already completed before the file
/// began; and the completed set only grows, nested files included.
pub proof fn lemma_each_key_inserted_once(
    events: Seq<EventView>,
    t: FileTrace,
    before: Set<Key>,
    after: Set<Key>,
    compress: bool,
    chain: Seq<Seq<char>>,
)
    requires
        trace_ok(events, t, before, after, compress, chain),
    ensures
        before.subset_of(after),
        forall|i: int|
            0 <= i < events.len() && (#[trigger] t.decisions[i]) !is Skip ==> !before.contains(t.keys[i])
                && after.contains(t.keys[i]),
        forall|i: int, j: int|
            0 <= i < j < events.len() && (#[trigger] t.decisions[i]) !is Skip && (#[trigger] t.decisions[j]) !is Skip
                ==> t.keys[i] != t.keys[j],
{
    let n = events.len();
    lemma_trace_grows(events, t, before, after, compress, chain);
    assert(t.completed[0].subset_of(t.completed[n as int]));
    assert forall|i: int| 0 <= i < n && (#[trigger] t.decisions[i]) !is Skip implies !before.contains(t.keys[i])
        && after.contains(t.keys[i]) by {
        lemma_steps_ok_each(events, t, compress, chain, n, i);
        lemma_step_grows(events[i], t.decisions[i], t.keys[i], t.completed[i], t.completed[i + 1], t.nested[i], compress, chain);
        assert(t.completed[0].subset_of(t.completed[i]));
        assert(t.completed[i + 1].subset_of(t.completed[n as int]));
    }
    assert forall|i: int, j: int|
        0 <= i < j < n && (#[trigger] t.decisions[i]) !is Skip && (#[trigger] t.decisions[j]) !is Skip implies t.keys[i]
        != t.keys[j] by {
        lemma_steps_ok_each(events, t, compress, chain, n, i);
        lemma_steps_ok_each(events, t, compress, chain, n, j);
        lemma_step_grows(events[i], t.decisions[i], t.keys[i], t.completed[i], t.completed[i + 1], t.nested[i], compress, chain);
        lemma_step_grows(events[j], t.decisions[j], t.keys[j], t.completed[j], t.completed[j + 1], t.nested[j], compress, chain);
        assert(t.completed[i + 1].subset_of(t.completed[j]));
    }
}

proof fn lemma_plain_replay_idle(events: Seq<EventView>, decisions: Seq<Decision>, src: Seq<char>, n: nat)
    requires
        n <= events.len(),
        forall|i: int| 0 <= i < events.len() ==> !(#[trigger] events[i] is Include) && !(events[i] is PragmaOnce),
    ensures
        replay(events, decisions, src, false, n) == (ReplayView {
            out: Seq::empty(),
            byte_pos: 0,
            cs: CompressorView::initial(),
        }),
    decreases n,
{
    if n > 0 {
        lemma_plain_replay_idle(events, decisions, src, (n - 1) as nat);
        assert(!(events[n - 1] is Include) && !(events[n - 1] is PragmaOnce));
    }
}

/// Without compression, a file with no `#include` and no `#pragma once`
/// comes out exactly as it went in.
pub proof fn lemma_plain_without_includes_is_identity(
    tree: SyntaxTree,
    t: FileTrace,
    out: Seq<char>,
    src: Seq<char>,
    context: Seq<DirectiveView>,
    before: Set<Key>,
    after: Set<Key>,
    chain: Seq<Seq<char>>,
)
    requires
        explains(tree, t, out, src, context, false, before, after, chain),
        forall|i: int|
            0 <= i < file_events(tree, src, context).len() ==> !(#[trigger] file_events(tree, src, context)[i] is Include)
                && !(file_events(tree, src, context)[i] is PragmaOnce),
    ensures
        out == src,
{
    let events = file_events(tree, src, context);
    lemma_plain_replay_idle(events, t.decisions, src, events.len());
    let len = encode_utf8(src).len();
    vstd::utf8::encode_utf8_decode_utf8(src);
    assert(encode_utf8(src).subrange(0, len as int) =~= encode_utf8(src));
    if len == 0 {
        crate::text::lemma_chars_within_bytes(src);
        assert(src =~= Seq::<char>::empty());
    } else {
        assert(Seq::<char>::empty() + text_of(src, 0, len as int) =~= src);
    }
}

/// A path of the form `<...>`, the form of a system header's key.
pub open spec fn looks_like_system_key(p: Seq<char>) -> bool {
    p.len() >= 2 && p[0] == '<' && p.last() == '>'
}

/// The keys recorded by the first `n` decisions of `t`, nested files
/// included, in the order in which they are recorded.
pub open spec fn recorded_keys(t: FileTrace, n: nat) -> Seq<Key>
    decreases t, n + 1,
{
    if n == 0 || n > t.decisions.len() || n > t.keys.len() || n > t.nested.len() {
        Seq::empty()
    } else {
        let prev = recorded_keys(t, (n - 1) as nat);
        match t.decisions[n - 1] {
            Decision::Skip => prev,
            Decision::EmitSystem => prev.push(t.keys[n - 1]),
            Decision::InsertLocal(_) => (prev + all_recorded_keys(t.nested[n - 1].trace)).push(t.keys[n - 1]),
        }
    }
}

/// All keys recorded by `t`, nested files included, in the order in which
/// they are recorded.
pub open spec fn all_recorded_keys(t: FileTrace) -> Seq<Key>
    decreases t, t.decisions.len() + 2,
{
    recorded_keys(t, t.decisions.len())
}

/// The local files inserted by the first `n` decisions of `t`, nested files
/// included, have paths not of the form `<...>`.
pub open spec fn local_paths_plain(t: FileTrace, n: nat) -> bool
    decreases t, n + 1,
{
    if n == 0 || n > t.decisions.len() || n > t.keys.len() || n > t.nested.len() {
        true
    } else {
        &&& local_paths_plain(t, (n - 1) as nat)
        &&& t.decisions[n - 1] is InsertLocal ==> !looks_like_system_key(t.keys[n - 1].0)
            && all_local_paths_plain(t.nested[n - 1].trace)
    }
}

/// The local files inserted by `t`, nested files included, have paths not
/// of the form `<...>`.
pub open spec fn all_local_paths_plain(t: FileTrace) -> bool
    decreases t, t.decisions.len() + 2,
{
    local_paths_plain(t, t.decisions.len())
}

proof fn lemma_system_key_shape(p: Seq<char>)
    ensures
        looks_like_system_key(system_key(p)),
{
    reveal_strlit("<");
    reveal_strlit(">");
    assert(system_key(p)[0] == '<');
    assert(system_key(p).last() == '>');
}

proof fn lemma_join_distinct(a: Seq<Key>, b: Seq<Key>, x: Key)
    requires
        a.no_duplicates(),
        b.no_duplicates(),
        a.disjoint(b),
        !a.contains(x),
        !b.contains(x),
    ensures
        (a + b).push(x).no_duplicates(),
{
    let c = (a + b).push(x);
    assert forall|i: int, j: int| 0 <= i < c.len() && 0 <= j < c.len() && i != j implies c[i] != c[j] by {
        if i == c.len() - 1 {
            if j < a.len() {
                assert(a[j] == c[j]);
            } else {
                assert(b[j - a.len()] == c[j]);
            }
        } else if j == c.len() - 1 {
            if i < a.len() {
                assert(a[i] == c[i]);
            } else {
                assert(b[i - a.len()] == c[i]);
            }
        } else if i < a.len() && j < a.len() {
        } else if i >= a.len() && j >= a.len() {
            assert(c[i] == b[i - a.len()] && c[j] == b[j - a.len()]);
        } else if i < a.len() {
            assert(c[j] == b[j - a.len()]);
        } else {
            assert(c[i] == b[i - a.len()]);
        }
    }
}

/// What the first `n` decisions of a valid record have recorded: no key
/// twice, none completed before, all completed after the `n`-th decision,
/// and no local path of a file being expanded.
proof fn lemma_recorded_prefix(
    events: Seq<EventView>,
    t: FileTrace,
    before: Set<Key>,
    after: Set<Key>,
    compress: bool,
    chain: Seq<Seq<char>>,
    n: nat,
)
    requires
        trace_ok(events, t, before, after, compress, chain),
        n <= events.len(),
        local_paths_plain(t, n),
    ensures
        recorded_keys(t, n).no_duplicates(),
        forall|i: int|
            0 <= i < recorded_keys(t, n).len() ==> !before.contains(#[trigger] recorded_keys(t, n)[i])
                && t.completed[n as int].contains(recorded_keys(t, n)[i]),
        forall|i: int|
            0 <= i < recorded_keys(t, n).len() && !looks_like_system_key((#[trigger] recorded_keys(t, n)[i]).0)
                ==> !chain.contains(recorded_keys(t, n)[i].0),
    decreases t, n,
{
    if n > 0 {
        let len = events.len();
        let j = n - 1;
        lemma_recorded_prefix(events, t, before, after, compress, chain, (n - 1) as nat);
        lemma_steps_ok_each(events, t, compress, chain, len, j);
        lemma_step_grows(events[j], t.decisions[j], t.keys[j], t.completed[j], t.completed[j + 1], t.nested[j], compress, chain);
        lemma_trace_grows(events, t, before, after, compress, chain);
        assert(t.completed[0].subset_of(t.completed[j]));
        let prev = recorded_keys(t, (n - 1) as nat);
        let key = t.keys[j];
        match t.decisions[j] {
            Decision::Skip => {},
            Decision::EmitSystem => {
                if let EventView::Include { target: Some(IncludeView::System(p)), .. } = events[j] {
                    lemma_system_key_shape(p);
                }
                assert(!prev.contains(key));
                assert(prev.push(key).no_duplicates()) by {
                    lemma_join_distinct(prev, Seq::empty(), key);
                    assert(prev + Seq::<Key>::empty() =~= prev);
                }
            },
            Decision::InsertLocal(text) => {
                let nested = t.nested[j];
                if let EventView::Include { target: Some(IncludeView::Local(_)), context, .. } = events[j] {
                    let nevents = file_events(nested.tree, nested.source, context);
                    lemma_all_recorded(nevents, nested.trace, t.completed[j], nested.after, compress, chain.push(key.0));
                    let inner = all_recorded_keys(nested.trace);
                    assert(prev.disjoint(inner)) by {
                        assert forall|a: int, b: int| 0 <= a < prev.len() && 0 <= b < inner.len() implies prev[a]
                            != inner[b] by {
                            assert(t.completed[j].contains(prev[a]));
                            assert(!t.completed[j].contains(inner[b]));
                        }
                    }
                    assert(!prev.contains(key));
                    assert(!inner.contains(key)) by {
                        if inner.contains(key) {
                            let b = choose|b: int| 0 <= b < inner.len() && inner[b] == key;
                            assert(chain.push(key.0).contains(key.0)) by {
                                assert(chain.push(key.0)[chain.len() as int] == key.0);
                            }
                        }
                    }
                    lemma_join_distinct(prev, inner, key);
                    let all = (prev + inner).push(key);
                    assert forall|i: int| 0 <= i < all.len() implies !before.contains(#[trigger] all[i])
                        && t.completed[n as int].contains(all[i]) by {
                        if i < prev.len() {
                            assert(all[i] == prev[i]);
                        } else if i < prev.len() + inner.len() {
                            assert(all[i] == inner[i - prev.len()]);
                        }
                    }
                    assert forall|i: int| 0 <= i < all.len() && !looks_like_system_key((#[trigger] all[i]).0) implies !chain.contains(
                        all[i].0,
                    ) by {
                        if i < prev.len() {
                            assert(all[i] == prev[i]);
                        } else if i < prev.len() + inner.len() {
                            assert(all[i] == inner[i - prev.len()]);
                            if chain.contains(all[i].0) {
                                let c = choose|c: int| 0 <= c < chain.len() && chain[c] == all[i].0;
                                assert(chain.push(key.0)[c] == all[i].0);
                            }
                        }
                    }
                }
            },
        }
    }
}

/// What a whole valid record has recorded, nested files included.
proof fn lemma_all_recorded(
    events: Seq<EventView>,
    t: FileTrace,
    before: Set<Key>,
    after: Set<Key>,
    compress: bool,
    chain: Seq<Seq<char>>,
)
    requires
        trace_ok(events, t, before, after, compress, chain),
        all_local_paths_plain(t),
    ensures
        all_recorded_keys(t).no_duplicates(),
        forall|i: int|
            0 <= i < all_recorded_keys(t).len() ==> !before.contains(#[trigger] all_recorded_keys(t)[i])
                && after.contains(all_recorded_keys(t)[i]),
        forall|i: int|
            0 <= i < all_recorded_keys(t).len() && !looks_like_system_key((#[trigger] all_recorded_keys(t)[i]).0)
                ==> !chain.contains(all_recorded_keys(t)[i].0),
    decreases t, events.len() + 1,
{
    lemma_recorded_prefix(events, t, before, after, compress, chain, events.len());
}

/// Over a whole expansion, nested files included, no file and no system
/// header is recorded twice in the same context, none is recorded that was
/// completed before the expansion began, and every one recorded is completed
/// at its end; so each is put into the output at most once per context.
/// This holds when no local path that the resolver gives has the `<...>`
/// form of a system header's key.
pub proof fn lemma_each_key_recorded_once(
    tree: SyntaxTree,
    t: FileTrace,
    out: Seq<char>,
    src: Seq<char>,
    context: Seq<DirectiveView>,
    compress: bool,
    before: Set<Key>,
    after: Set<Key>,
    chain: Seq<Seq<char>>,
)
    requires
        explains(tree, t, out, src, context, compress, before, after, chain),
        all_local_paths_plain(t),
    ensures
        all_recorded_keys(t).no_duplicates(),
        forall|i: int|
            0 <= i < all_recorded_keys(t).len() ==> !before.contains(#[trigger] all_recorded_keys(t)[i])
                && after.contains(all_recorded_keys(t)[i]),
{
    lemma_all_recorded(file_events(tree, src, context), t, before, after, compress, chain);
}

/// What an event contributes to a compressed file, apart from spaces and
/// line breaks: a token's text, the expansion inserted for a local include,
/// or the text of a system include that is kept.
pub open spec fn event_text(e: EventView, d: Decision, src: Seq<char>) -> Seq<char> {
    match e {
        EventView::Include { start, end, .. } => match d {
            Decision::InsertLocal(t) => t,
            Decision::EmitSystem => text_of(src, start as int, end as int),
            Decision::Skip => Seq::empty(),
        },
        EventView::Token { start, end, .. } => text_of(src, start as int, end as int),
        _ => Seq::empty(),
    }
}

/// The texts contributed by the first `n` events, in order.
pub open spec fn events_text(events: Seq<EventView>, decisions: Seq<Decision>, src: Seq<char>, n: nat) -> Seq<char>
    decreases n,
{
    if n == 0 {
        Seq::empty()
    } else {
        events_text(events, decisions, src, (n - 1) as nat) + event_text(events[n - 1], decisions[n - 1], src)
    }
}

proof fn lemma_compressed_replay_text(events: Seq<EventView>, decisions: Seq<Decision>, src: Seq<char>, n: nat)
    requires
        n <= events.len(),
        n <= decisions.len(),
    ensures
        drop_blanks(replay(events, decisions, src, true, n).cs.output)
            == drop_blanks(events_text(events, decisions, src, n)),
    decreases n,
{
    lemma_empty_text();
    if n > 0 {
        lemma_compressed_replay_text(events, decisions, src, (n - 1) as nat);
        let r = replay(events, decisions, src, true, (n - 1) as nat);
        let e = events[n - 1];
        let d = decisions[n - 1];
        let prev_text = events_text(events, decisions, src, (n - 1) as nat);
        lemma_drop_blanks_add(prev_text, event_text(e, d, src));
        match e {
            EventView::Include { start, end, .. } => {
                let cs1 = r.cs.ensure_newline();
                lemma_steps_add_blanks(r.cs, Seq::empty(), false, Seq::empty(), false, false);
                match d {
                    Decision::InsertLocal(t) => {
                        lemma_drop_blanks_add(cs1.output, t);
                        lemma_drop_blanks_push_blank(cs1.output + t, '\n');
                    },
                    Decision::EmitSystem => {
                        lemma_steps_add_blanks(
                            cs1,
                            text_of(src, start as int, end as int),
                            false,
                            Seq::empty(),
                            false,
                            false,
                        );
                    },
                    Decision::Skip => {},
                }
            },
            EventView::Token { start, end, keyword } => {
                lemma_steps_add_blanks(
                    r.cs,
                    text_of(src, start as int, end as int),
                    false,
                    Seq::empty(),
                    false,
                    false,
                );
            },
            EventView::Enter { kind } => {
                lemma_steps_add_blanks(r.cs, Seq::empty(), false, kind, false, false);
            },
            EventView::Sibling { has_children, starts_with_hash } => {
                lemma_steps_add_blanks(
                    r.cs,
                    Seq::empty(),
                    false,
                    Seq::empty(),
                    has_children,
                    starts_with_hash,
                );
            },
            EventView::Exit { kind } => {
                lemma_steps_add_blanks(r.cs, Seq::empty(), false, kind, false, false);
            },
            EventView::PragmaOnce { .. } => {},
        }
    }
}

proof fn lemma_empty_text()
    ensures
        drop_blanks(Seq::<char>::empty()) == Seq::<char>::empty(),
        forall|s: Seq<char>| #[trigger] (s + Seq::<char>::empty()) == s,
{
    assert forall|s: Seq<char>| #[trigger] (s + Seq::<char>::empty()) == s by {
        assert(s + Seq::<char>::empty() =~= s);
    }
}

/// With compression, a file's output is, apart from spaces and line
/// breaks, exactly the texts of its tokens (comments left out), the
/// expansions inserted for its local includes and the system includes it
/// keeps, in order.
pub proof fn lemma_compressed_output_keeps_text(events: Seq<EventView>, decisions: Seq<Decision>, src: Seq<char>)
    requires
        decisions.len() == events.len(),
    ensures
        drop_blanks(file_output(events, decisions, src, true))
            == drop_blanks(events_text(events, decisions, src, events.len())),
{
    lemma_compressed_replay_text(events, decisions, src, events.len());
}

/// The output assembled so far: the compressor's, or the plain one.
pub open spec fn replay_output(r: ReplayView, compress: bool) -> Seq<char> {
    if compress {
        r.cs.output
    } else {
        r.out
    }
}

proof fn lemma_replay_step_appends(r: ReplayView, e: EventView, d: Decision, src: Seq<char>, compress: bool)
    ensures
        replay_output(r, compress).is_prefix_of(replay_output(replay_step(r, e, d, src, compress), compress)),
{
    let o = replay_output(r, compress);
    let n = replay_output(replay_step(r, e, d, src, compress), compress);
    if compress {
        let cs = r.cs;
        match e {
            EventView::Include { start, end, .. } => {
                let cs1 = cs.ensure_newline();
                lemma_steps_append_only(cs, Seq::empty(), false, Seq::empty(), false, false);
                match d {
                    Decision::InsertLocal(t) => {
                        lemma_steps_append_only(cs1, t, false, Seq::empty(), false, false);
                    },
                    Decision::EmitSystem => {
                        lemma_steps_append_only(cs1, text_of(src, start as int, end as int), false, Seq::empty(), false, false);
                    },
                    Decision::Skip => {},
                }
            },
            EventView::Token { start, end, .. } => {
                lemma_steps_append_only(cs, text_of(src, start as int, end as int), false, Seq::empty(), false, false);
            },
            EventView::Enter { kind } => {
                let c = cs.enter_preproc_directive();
                lemma_steps_append_only(cs, Seq::empty(), false, kind, false, false);
                lemma_steps_append_only(c, Seq::empty(), false, kind, false, false);
            },
            EventView::Sibling { has_children, starts_with_hash } => {
                lemma_steps_append_only(cs, Seq::empty(), false, Seq::empty(), has_children, starts_with_hash);
            },
            EventView::Exit { kind } => {
                lemma_steps_append_only(cs, Seq::empty(), false, kind, false, false);
            },
            _ => {},
        }
    } else {
        match e {
            EventView::Include { start, end, .. } => {
                let o1 = if start > r.byte_pos {
                    r.out + text_of(src, r.byte_pos as int, start as int)
                } else {
                    r.out
                };
                assert(o.is_prefix_of(o1));
                match d {
                    Decision::InsertLocal(t) => {
                        assert(o1.is_prefix_of(with_trailing_newline(o1, t)));
                    },
                    Decision::EmitSystem => {
                        assert(o1.is_prefix_of(o1 + text_of(src, start as int, end as int)));
                    },
                    Decision::Skip => {},
                }
            },
            _ => {},
        }
    }
}

proof fn lemma_replay_appends(
    events: Seq<EventView>,
    decisions: Seq<Decision>,
    src: Seq<char>,
    compress: bool,
    n: nat,
    m: nat,
)
    requires
        n <= m,
    ensures
        replay_output(replay(events, decisions, src, compress, n), compress).is_prefix_of(
            replay_output(replay(events, decisions, src, compress, m), compress),
        ),
    decreases m,
{
    if n < m {
        lemma_replay_appends(events, decisions, src, compress, n, (m - 1) as nat);
        lemma_replay_step_appends(
            replay(events, decisions, src, compress, (m - 1) as nat),
            events[m - 1],
            decisions[m - 1],
            src,
            compress,
        );
    }
}

/// An included file's expansion comes between what its includer puts out
/// before the include and everything the includer puts out after it: when
/// the include at event `j` was replaced by `t`, the file's output up to the
/// include, then `t` (closed by a newline if it has none), begins the
/// file's whole output.
pub proof fn lemma_expansion_precedes_rest(
    events: Seq<EventView>,
    decisions: Seq<Decision>,
    src: Seq<char>,
    compress: bool,
    j: int,
    t: Seq<char>,
)
    requires
        0 <= j < events.len(),
        events[j] is Include,
        decisions[j] == Decision::InsertLocal(t),
    ensures
        exists|p: Seq<char>|
            #![trigger with_trailing_newline(p, t)]
            replay_output(replay(events, decisions, src, compress, j as nat), compress).is_prefix_of(p)
                && with_trailing_newline(p, t) == replay_output(
                replay(events, decisions, src, compress, (j + 1) as nat),
                compress,
            ) && with_trailing_newline(p, t).is_prefix_of(file_output(events, decisions, src, compress)),
{
    let r = replay(events, decisions, src, compress, j as nat);
    let r1 = replay(events, decisions, src, compress, (j + 1) as nat);
    let p = if compress {
        r.cs.ensure_newline().output
    } else {
        match events[j] {
            EventView::Include { start, .. } => if start > r.byte_pos {
                r.out + text_of(src, r.byte_pos as int, start as int)
            } else {
                r.out
            },
            _ => r.out,
        }
    };
    if compress {
        lemma_steps_append_only(r.cs, Seq::empty(), false, Seq::empty(), false, false);
    }
    assert(replay_output(r, compress).is_prefix_of(p));
    assert(with_trailing_newline(p, t) == replay_output(r1, compress));
    lemma_replay_appends(events, decisions, src, compress, (j + 1) as nat, events.len());
    let last = replay(events, decisions, src, compress, events.len());
    let len = encode_utf8(src).len();
    if !compress && len > last.byte_pos {
        assert(last.out.is_prefix_of(last.out + text_of(src, last.byte_pos as int, len as int)));
    }
}

/// Two subtrees agree on everything the expansion reads of them: kinds,
/// byte ranges and the shape of their children.
pub open spec fn same_shape(a: SyntaxNode, b: SyntaxNode) -> bool
    decreases a,
{
    &&& a.kind@ == b.kind@
    &&& a.start_byte == b.start_byte
    &&& a.end_byte == b.end_byte
    &&& a.children.len() == b.children.len()
    &&& forall|i: int|
        0 <= i < a.children.len() ==> same_shape(#[trigger] a.children@[i], b.children@[i])
}

proof fn lemma_parses_same_shape(
    a: SyntaxNode,
    b: SyntaxNode,
    m: Map<Seq<int>, (Seq<char>, Option<Seq<char>>, int, int, int)>,
)
    requires
        matches_parse(a, m),
        matches_parse(b, m),
    ensures
        same_shape(a, b),
    decreases a,
{
    assert forall|i: int| 0 <= i < a.children.len() implies same_shape(
        #[trigger] a.children@[i],
        b.children@[i],
    ) by {
        lemma_parses_same_shape(a.children@[i], b.children@[i], child_nodes(m, i));
    }
}

proof fn lemma_shape_fits(a: SyntaxNode, b: SyntaxNode, src: Seq<char>, depth: nat)
    requires
        same_shape(a, b),
    ensures
        a.fits(src, depth) == b.fits(src, depth),
    decreases a,
{
    let d = (depth - 1) as nat;
    assert forall|i: int| 0 <= i < a.children.len() implies #[trigger] a.children@[i].fits(src, d)
        == b.children@[i].fits(src, d) by {
        lemma_shape_fits(a.children@[i], b.children@[i], src, d);
    }
    if a.fits(src, depth) {
        assert forall|i: int| 0 <= i < b.children.len() implies #[trigger] b.children@[i].fits(src, d) by {
            assert(a.children@[i].fits(src, d));
        }
        assert(forall|i: int| 0 <= i < b.children.len() ==> (#[trigger] b.children@[i]).fits(src, d));
    }
    if b.fits(src, depth) {
        assert forall|i: int| 0 <= i < a.children.len() implies #[trigger] a.children@[i].fits(src, d) by {
            assert(b.children@[i].fits(src, d));
        }
        assert(forall|i: int| 0 <= i < a.children.len() ==> (#[trigger] a.children@[i]).fits(src, d));
    }
}

proof fn lemma_shape_leaf_tokens(a: SyntaxNode, b: SyntaxNode, src: Seq<char>)
    requires
        same_shape(a, b),
    ensures
        leaf_tokens(a, src) == leaf_tokens(b, src),
    decreases a, a.children.len() + 1,
{
    if !a.is_leaf() {
        lemma_shape_leaf_tokens_children(a, b, src, a.children.len() as nat);
    }
}

proof fn lemma_shape_leaf_tokens_children(a: SyntaxNode, b: SyntaxNode, src: Seq<char>, i: nat)
    requires
        same_shape(a, b),
    ensures
        leaf_tokens_children(a, src, i) == leaf_tokens_children(b, src, i),
    decreases a, i,
{
    if i > 0 && i <= a.children.len() {
        lemma_shape_leaf_tokens_children(a, b, src, (i - 1) as nat);
        assert(same_shape(a.children@[i - 1], b.children@[i - 1]));
        lemma_shape_leaf_tokens(a.children@[i - 1], b.children@[i - 1], src);
    }
}

proof fn lemma_shape_subject(a: SyntaxNode, b: SyntaxNode, src: Seq<char>, i: nat)
    requires
        same_shape(a, b),
    ensures
        subject_from(a, src, i) == subject_from(b, src, i),
    decreases a.children.len() - i,
{
    if i < a.children.len() {
        assert(same_shape(a.children@[i as int], b.children@[i as int]));
        lemma_shape_leaf_tokens(a.children@[i as int], b.children@[i as int], src);
        lemma_shape_subject(a, b, src, i + 1);
    }
}

proof fn lemma_shape_classify(a: SyntaxNode, b: SyntaxNode, src: Seq<char>, i: nat)
    requires
        same_shape(a, b),
    ensures
        classify_from(a, src, i) == classify_from(b, src, i),
    decreases a.children.len() - i,
{
    if i < a.children.len() {
        assert(same_shape(a.children@[i as int], b.children@[i as int]));
        lemma_shape_classify(a, b, src, i + 1);
    }
}

proof fn lemma_shape_walk_own(a: SyntaxNode, b: SyntaxNode, src: Seq<char>, w: WalkView)
    requires
        same_shape(a, b),
    ensures
        walk_own(a, src, w) == walk_own(b, src, w),
{
    lemma_shape_classify(a, b, src, 0);
    lemma_shape_subject(a, b, src, 0);
}

proof fn lemma_shape_walk_node(a: SyntaxNode, b: SyntaxNode, src: Seq<char>, w: WalkView)
    requires
        same_shape(a, b),
    ensures
        walk_node(a, src, w) == walk_node(b, src, w),
    decreases a, a.children.len() + 1,
{
    lemma_shape_walk_own(a, b, src, w);
    let (own, w1, skip) = walk_own(a, src, w);
    if !skip && a.children.len() > 0 {
        lemma_shape_walk_children(a, b, src, w1, a.children.len() as nat);
    }
}

proof fn lemma_shape_walk_children(a: SyntaxNode, b: SyntaxNode, src: Seq<char>, w: WalkView, i: nat)
    requires
        same_shape(a, b),
    ensures
        walk_children(a, src, w, i) == walk_children(b, src, w, i),
    decreases a, i,
{
    if i > 0 && i <= a.children.len() {
        lemma_shape_walk_children(a, b, src, w, (i - 1) as nat);
        let (prev, w1) = walk_children(a, src, w, (i - 1) as nat);
        assert(same_shape(a.children@[i - 1], b.children@[i - 1]));
        lemma_shape_walk_node(a.children@[i - 1], b.children@[i - 1], src, w1);
    }
}

/// The expansion of a source does not depend on which syntax tree of it is
/// taken: any two trees that are the parse of `src` yield the same events,
/// and expand alike with the same answers.
pub proof fn lemma_parse_decides_expansion<R: FileResolver>(
    resolver: R,
    t1: SyntaxTree,
    t2: SyntaxTree,
    out: Seq<char>,
    src: Seq<char>,
    context: Seq<DirectiveView>,
    compress: bool,
    before: Set<Key>,
    after: Set<Key>,
    chain: Seq<Seq<char>>,
)
    requires
        is_parse_of(t1, src),
        is_parse_of(t2, src),
    ensures
        file_events(t1, src, context) == file_events(t2, src, context),
        t1.wf(src) == t2.wf(src),
        expansion_from(resolver, t1, out, src, context, compress, before, after, chain) == expansion_from(
            resolver,
            t2,
            out,
            src,
            context,
            compress,
            before,
            after,
            chain,
        ),
{
    lemma_parses_same_shape(t1.root, t2.root, cpp_parse(src));
    lemma_shape_walk_node(t1.root, t2.root, src, WalkView { context, saved: Seq::empty() });
    lemma_shape_fits(t1.root, t2.root, src, usize::MAX as nat);
    if expansion_from(resolver, t1, out, src, context, compress, before, after, chain) {
        let t = choose|t: FileTrace|
            #[trigger] explains(t1, t, out, src, context, compress, before, after, chain) && trace_answers_ok(
                resolver,
                file_events(t1, src, context),
                t,
                chain,
            );
        assert(explains(t2, t, out, src, context, compress, before, after, chain));
    }
    if expansion_from(resolver, t2, out, src, context, compress, before, after, chain) {
        let t = choose|t: FileTrace|
            #[trigger] explains(t2, t, out, src, context, compress, before, after, chain) && trace_answers_ok(
                resolver,
                file_events(t2, src, context),
                t,
                chain,
            );
        assert(explains(t1, t, out, src, context, compress, before, after, chain));
    }
}

/// Entering `#ifdef X` and entering `#ifndef X` put the walk in different
/// contexts: each adds one directive to the context it was entered in, and
/// the two added directives differ, so a file included under one is not
/// taken as already expanded under the other.
pub proof fn lemma_ifdef_ifndef_contexts_differ(a: SyntaxNode, b: SyntaxNode, src: Seq<char>, w: WalkView)
    requires
        a.kind@ == "preproc_ifdef"@,
        b.kind@ == "preproc_ifndef"@,
    ensures
        walk_own(a, src, w).1.context.drop_last() == w.context,
        walk_own(b, src, w).1.context.drop_last() == w.context,
        walk_own(a, src, w).1.context.len() == w.context.len() + 1,
        walk_own(b, src, w).1.context.len() == w.context.len() + 1,
        walk_own(a, src, w).1.context != walk_own(b, src, w).1.context,
{
    reveal_strlit("preproc_ifdef");
    reveal_strlit("preproc_ifndef");
    reveal_strlit("preproc_include");
    reveal_strlit("preproc_call");
    assert("preproc_ifdef"@.len() == 13);
    assert("preproc_ifndef"@.len() == 14);
    assert("preproc_include"@.len() == 15);
    assert("preproc_call"@.len() == 12);
    assert(a.kind@ != "preproc_include"@ && a.kind@ != "preproc_call"@);
    assert(b.kind@ != "preproc_include"@ && b.kind@ != "preproc_call"@ && b.kind@ != "preproc_ifdef"@);
    let ca = walk_own(a, src, w).1.context;
    let cb = walk_own(b, src, w).1.context;
    assert(ca == w.context.push(DirectiveView::Ifdef(spec_extract_subject(a, src))));
    assert(cb == w.context.push(DirectiveView::Ifndef(spec_extract_subject(b, src))));
    assert(ca.drop_last() =~= w.context);
    assert(cb.drop_last() =~= w.context);
    assert(ca.last() != cb.last());
}

/// In a compressed expansion an include never continues a line: whatever the
/// include's context, the output is first brought to the start of a line
/// (it is empty or ends with a newline), and what replaces the include comes
/// after that. A file inserted for it is followed by a newline unless it
/// ends with one.
pub proof fn lemma_compressed_include_starts_line(
    r: ReplayView,
    e: EventView,
    d: Decision,
    src: Seq<char>,
)
    requires
        e is Include,
    ensures
        exists|p: Seq<char>|
            #![trigger r.cs.output.is_prefix_of(p)]
            r.cs.output.is_prefix_of(p) && (p.len() == 0 || p.last() == '\n') && p.is_prefix_of(
                replay_step(r, e, d, src, true).cs.output,
            ) && (d matches Decision::InsertLocal(t) ==> replay_step(r, e, d, src, true).cs.output == (
            if t.len() > 0 && t.last() == '\n' {
                p + t
            } else {
                (p + t).push('\n')
            })) && (d is Skip ==> replay_step(r, e, d, src, true).cs.output == p),
{
    let cs1 = r.cs.ensure_newline();
    let p = cs1.output;
    lemma_steps_append_only(r.cs, Seq::empty(), false, Seq::empty(), false, false);
    match e {
        EventView::Include { start, end, .. } => {
            match d {
                Decision::InsertLocal(t) => {
                    lemma_steps_append_only(cs1, t, false, Seq::empty(), false, false);
                },
                Decision::EmitSystem => {
                    lemma_steps_append_only(cs1, text_of(src, start as int, end as int), false, Seq::empty(), false, false);
                },
                Decision::Skip => {},
            }
        },
        _ => {},
    }
    assert(r.cs.output.is_prefix_of(p));
}

/// What replaces an include comes whole, right where the include stood, and
/// closes its line: when the include at event `j` was replaced by `t`, the
/// output after it is the output before it, possibly followed by text up to
/// the include, then `t`, then a newline unless `t` ends with one; with
/// compression, `t` starts a line.
pub proof fn lemma_inserted_expansion_closes_line(
    events: Seq<EventView>,
    decisions: Seq<Decision>,
    src: Seq<char>,
    compress: bool,
    j: int,
    t: Seq<char>,
)
    requires
        0 <= j < events.len(),
        events[j] is Include,
        decisions[j] == Decision::InsertLocal(t),
    ensures
        exists|p: Seq<char>|
            #![trigger replay_output(replay(events, decisions, src, compress, j as nat), compress).is_prefix_of(p)]
            replay_output(replay(events, decisions, src, compress, j as nat), compress).is_prefix_of(p)
                && (compress ==> p.len() == 0 || p.last() == '\n') && replay_output(
                replay(events, decisions, src, compress, (j + 1) as nat),
                compress,
            ) == (if t.len() > 0 && t.last() == '\n' {
                p + t
            } else {
                (p + t).push('\n')
            }),
{
    let r = replay(events, decisions, src, compress, j as nat);
    if compress {
        lemma_compressed_include_starts_line(r, events[j], decisions[j], src);
        let p = choose|p: Seq<char>|
            #![trigger r.cs.output.is_prefix_of(p)]
            r.cs.output.is_prefix_of(p) && (p.len() == 0 || p.last() == '\n') && p.is_prefix_of(
                replay_step(r, events[j], decisions[j], src, true).cs.output,
            ) && (decisions[j] matches Decision::InsertLocal(t) ==> replay_step(r, events[j], decisions[j], src, true).cs.output == (
            if t.len() > 0 && t.last() == '\n' {
                p + t
            } else {
                (p + t).push('\n')
            })) && (decisions[j] is Skip ==> replay_step(r, events[j], decisions[j], src, true).cs.output == p);
        assert(replay_output(r, compress).is_prefix_of(p));
    } else {
        let p = match events[j] {
            EventView::Include { start, .. } => if start > r.byte_pos {
                r.out + text_of(src, r.byte_pos as int, start as int)
            } else {
                r.out
            },
            _ => r.out,
        };
        assert(replay_output(r, compress).is_prefix_of(p));
    }
}

/// The condition of an `#elif`, like that of an `#if`, stays on the
/// directive's line, and the body after it starts a new line: inside a
/// conditional block, entering either directive and emitting its keyword,
/// the first sibling with children (the condition) adds nothing before it,
/// and the next one (the body) starts on a new line.
pub proof fn lemma_condition_stays_on_directive_line(cs: CompressorView, kind: Seq<char>, keyword: Seq<char>)
    requires
        kind == "preproc_elif"@ || kind == "preproc_if"@,
        cs.compound_depth > 0,
    ensures
        ({
            let c = enter_directive(cs, kind).emit_token(keyword, false);
            let cond = c.on_next_sibling(true, false);
            &&& cond.output == c.output
            &&& cond.on_next_sibling(true, false).output.len() > 0
            &&& cond.on_next_sibling(true, false).output.last() == '\n'
        }),
{
    reveal_strlit("preproc_elif");
    reveal_strlit("preproc_if");
    reveal_strlit("preproc_ifdef");
}

} // verus!
