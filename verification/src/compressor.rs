//! Token-level compression of C/C++ source: comments are dropped, tokens are
//! joined without whitespace except where two identifier-like tokens meet or
//! two symbols would fuse into another one (`+ +`, `- >`, `< <`, ...), and
//! preprocessor directives keep their own lines.

use vstd::prelude::*;
use crate::syntax::SyntaxNode;
use crate::text::{
    char_range, ends_with_char, str_eq, first_char, last_char, push_char, push_str, slice_text,
    starts_with_char, string_with_capacity, text_of, trim, trim_spec,
};
use crate::syntax::SyntaxTree;

verus! {

/// Whether `c` is `[a-zA-Z0-9_]`.
pub open spec fn spec_is_ident_char(c: char) -> bool {
    ||| ('a' <= c && c <= 'z')
    ||| ('A' <= c && c <= 'Z')
    ||| ('0' <= c && c <= '9')
    ||| c == '_'
}

/// Whether `c` can be part of an identifier, keyword or number: `[a-zA-Z0-9_]`.
pub fn is_ident_char(c: char) -> (b: bool)
    ensures
        b == spec_is_ident_char(c),
{
    ('a' <= c && c <= 'z') || ('A' <= c && c <= 'Z') || ('0' <= c && c <= '9') || c == '_'
}

/// Two characters that, written side by side, would read as one longer
/// punctuator or open a comment: `+ +` must not become `++`, nor `/ *`
/// become `/*`.
pub open spec fn spec_joins_punctuator(p: char, c: char) -> bool {
    ||| (p == '+' && (c == '+' || c == '='))
    ||| (p == '-' && (c == '-' || c == '=' || c == '>'))
    ||| (p == '<' && (c == '<' || c == '=' || c == ':' || c == '%'))
    ||| (p == '>' && (c == '>' || c == '='))
    ||| (p == '=' && c == '=')
    ||| (p == '!' && c == '=')
    ||| (p == '&' && (c == '&' || c == '='))
    ||| (p == '|' && (c == '|' || c == '='))
    ||| (p == '*' && c == '=')
    ||| (p == '/' && (c == '/' || c == '*' || c == '='))
    ||| (p == '%' && (c == '=' || c == '>' || c == ':'))
    ||| (p == '^' && c == '=')
    ||| (p == ':' && (c == ':' || c == '>'))
    ||| (p == '.' && (c == '.' || c == '*'))
    ||| (p == '#' && c == '#')
}

/// Whether the characters `p` and `c`, the last of one token and the first
/// of the next, need a space between them to stay two tokens.
pub open spec fn spec_needs_space(p: char, c: char) -> bool {
    (spec_is_ident_char(p) && spec_is_ident_char(c)) || spec_joins_punctuator(p, c)
}

/// Whether `p` and `c` would read as one longer punctuator.
pub fn joins_punctuator(p: char, c: char) -> (b: bool)
    ensures
        b == spec_joins_punctuator(p, c),
{
    (p == '+' && (c == '+' || c == '=')) || (p == '-' && (c == '-' || c == '=' || c == '>')) || (p == '<'
        && (c == '<' || c == '=' || c == ':' || c == '%')) || (p == '>' && (c == '>' || c == '=')) || (p
        == '=' && c == '=') || (p == '!' && c == '=') || (p == '&' && (c == '&' || c == '=')) || (p == '|'
        && (c == '|' || c == '=')) || (p == '*' && c == '=') || (p == '/' && (c == '/' || c == '*' || c
        == '=')) || (p == '%' && (c == '=' || c == '>' || c == ':')) || (p == '^' && c == '=') || (p
        == ':' && (c == ':' || c == '>')) || (p == '.' && (c == '.' || c == '*')) || (p == '#' && c
        == '#')
}

/// The grammar's kinds for the keyword that opens a directive's line:
/// `#include`, `#define`, `#endif` and the like, or the `#pragma`-style
/// word of a `preproc_call`.
pub open spec fn spec_is_directive_keyword(kind: Seq<char>) -> bool {
    (kind.len() > 0 && kind[0] == '#') || kind == "preproc_directive"@
}

/// Whether `kind` names the keyword that opens a directive's line.
pub fn is_directive_keyword(kind: &str) -> (b: bool)
    ensures
        b == spec_is_directive_keyword(kind@),
{
    starts_with_char(kind, '#') || str_eq(kind, "preproc_directive")
}

/// Whether a sequence ends with a newline.
pub open spec fn ends_with_newline(s: Seq<char>) -> bool {
    s.len() > 0 && s.last() == '\n'
}

/// `o` followed by `t`, and by a newline unless `t` ends with one.
pub open spec fn with_trailing_newline(o: Seq<char>, t: Seq<char>) -> Seq<char> {
    if ends_with_newline(t) {
        o + t
    } else {
        (o + t).push('\n')
    }
}

/// Preprocessor nodes that live inside a directive and open no line of their own.
pub open spec fn spec_is_preproc_sub_element(kind: Seq<char>) -> bool {
    ||| kind == "preproc_params"@
    ||| kind == "preproc_arg"@
    ||| kind == "preproc_defined"@
}

/// A top-level preprocessor directive: a `preproc_*` kind that is not a sub-element.
pub open spec fn spec_is_preproc_directive(kind: Seq<char>) -> bool {
    &&& kind.len() >= 8
    &&& kind.subrange(0, 8) == "preproc_"@
    &&& !spec_is_preproc_sub_element(kind)
}

/// A directive whose body spans several logical lines (`#ifdef ... #endif`, `#if ... #endif`).
pub open spec fn spec_is_compound_directive(kind: Seq<char>) -> bool {
    kind == "preproc_ifdef"@ || kind == "preproc_if"@
}

/// How many children with children of their own (and not starting with `#`)
/// come before the body of a directive of this kind: the condition of an
/// `#if` or `#elif`; the name of an `#ifdef` or `#elifdef` is a leaf.
pub open spec fn spec_body_siblings_before_body(kind: Seq<char>) -> nat {
    if kind == "preproc_if"@ || kind == "preproc_elif"@ {
        1
    } else {
        0
    }
}

/// The state of a compression in progress, as values.
pub struct CompressorView {
    pub output: Seq<char>,
    pub prev_last: Option<char>,
    pub compound_depth: nat,
    pub body_nl_counter: Option<nat>,
}

impl CompressorView {
    /// The state in which a compression starts.
    pub open spec fn initial() -> Self {
        CompressorView {
            output: Seq::empty(),
            prev_last: None,
            compound_depth: 0,
            body_nl_counter: None,
        }
    }

    /// A newline is appended unless the output is empty or already ends with one.
    pub open spec fn ensure_newline(self) -> Self {
        if self.output.len() > 0 && !ends_with_newline(self.output) {
            CompressorView { output: self.output.push('\n'), prev_last: None, ..self }
        } else {
            self
        }
    }

    /// A space is appended unless the last emitted character is a space.
    pub open spec fn ensure_trailing_space(self) -> Self {
        if self.prev_last != Some(' ') {
            CompressorView { output: self.output.push(' '), prev_last: Some(' '), ..self }
        } else {
            self
        }
    }

    /// A token is appended where it stands: a `#` token is first put on a new
    /// line (after a non-empty output that does not end one), and otherwise
    /// the token is appended as `emit_inline` does.
    pub open spec fn emit_token(self, text: Seq<char>, skip_space_before: bool) -> Self {
        if text.len() > 0 && text[0] == '#' && self.output.len() > 0 && !ends_with_newline(self.output) {
            CompressorView { output: self.output.push('\n'), ..self }.emit_inline(text, true)
        } else {
            self.emit_inline(text, skip_space_before)
        }
    }

    /// A token is appended on the current line; one space keeps it apart
    /// from the previous token where the two would otherwise read as one:
    /// two identifier-like characters, or two symbols that form a longer
    /// punctuator or a comment (unless `skip_space_before`).
    pub open spec fn emit_inline(self, text: Seq<char>, skip_space_before: bool) -> Self {
        if text.len() == 0 {
            self
        } else {
            let o = if !skip_space_before && (self.prev_last matches Some(p) && spec_needs_space(p, text[0])) {
                self.output.push(' ')
            } else {
                self.output
            };
            CompressorView { output: o + text, prev_last: Some(text.last()), ..self }
        }
    }

    /// Before a directive's children: the directive starts on a new line.
    pub open spec fn enter_preproc_directive(self) -> Self {
        self.ensure_newline()
    }

    /// Entering a compound directive of kind `kind`.
    pub open spec fn enter_compound_directive(self, kind: Seq<char>) -> Self {
        CompressorView {
            compound_depth: self.compound_depth + 1,
            body_nl_counter: Some(spec_body_siblings_before_body(kind)),
            ..self
        }
    }

    /// The walk has moved on to a sibling that has children or not, and whose
    /// text starts with `#` or not.
    pub open spec fn on_next_sibling(self, has_children: bool, starts_with_hash: bool) -> Self {
        if self.compound_depth > 0 && has_children && !starts_with_hash
            && self.body_nl_counter is Some {
            let remaining = self.body_nl_counter->0;
            if remaining == 0 {
                let s = if !ends_with_newline(self.output) {
                    CompressorView { output: self.output.push('\n'), prev_last: None, ..self }
                } else {
                    self
                };
                CompressorView { body_nl_counter: None, ..s }
            } else {
                CompressorView { body_nl_counter: Some((remaining - 1) as nat), ..self }
            }
        } else {
            self
        }
    }

    /// Leaving a directive of kind `kind`: a newline ends it.
    pub open spec fn exit_preproc_directive(self, kind: Seq<char>) -> Self {
        CompressorView {
            output: self.output.push('\n'),
            prev_last: None,
            compound_depth: if spec_is_compound_directive(kind) && self.compound_depth > 0 {
                (self.compound_depth - 1) as nat
            } else if spec_is_compound_directive(kind) {
                0
            } else {
                self.compound_depth
            },
            body_nl_counter: None,
        }
    }

    /// A block of text appended as it is, then a newline unless it ends with one.
    pub open spec fn append_block(self, text: Seq<char>) -> Self {
        CompressorView { output: with_trailing_newline(self.output, text), ..self }
    }

    /// Entering a directive of kind `kind` that may sit inside a compound block.
    pub open spec fn enter_preproc_child(self, kind: Seq<char>) -> Self {
        if self.compound_depth > 0 {
            CompressorView { body_nl_counter: Some(spec_body_siblings_before_body(kind)), ..self }
        } else {
            self
        }
    }
}

/// Reusable state machine for compressing C/C++ token output during a walk
/// over a syntax tree.
pub struct CompressorState {
    pub output: String,
    prev_last: Option<char>,
    compound_depth: usize,
    body_nl_counter: Option<usize>,
}

impl View for CompressorState {
    type V = CompressorView;

    closed spec fn view(&self) -> CompressorView {
        CompressorView {
            output: self.output@,
            prev_last: self.prev_last,
            compound_depth: self.compound_depth as nat,
            body_nl_counter: match self.body_nl_counter {
                Some(n) => Some(n as nat),
                None => None,
            },
        }
    }
}

impl CompressorState {
    /// The output so far.
    pub fn output(&self) -> (r: &str)
        ensures
            r@ == self@.output,
    {
        self.output.as_str()
    }

    /// A fresh state with an empty output.
    pub fn new(capacity: usize) -> (r: Self)
        ensures
            r@ == CompressorView::initial(),
    {
        CompressorState {
            output: string_with_capacity(capacity),
            prev_last: None,
            compound_depth: 0,
            body_nl_counter: None,
        }
    }

    /// Ensure the output ends with a newline (used when a skipped preproc
    /// node would have triggered `enter_preproc_directive`).
    pub fn ensure_newline(&mut self)
        ensures
            final(self)@ == old(self)@.ensure_newline(),
    {
        if !self.output.as_str().is_empty() && !ends_with_char(self.output.as_str(), '\n') {
            push_char(&mut self.output, '\n');
            self.prev_last = None;
        }
    }

    /// Ensure the output ends with a space (used after `#define` macro
    /// names to separate them from the replacement text).
    pub fn ensure_trailing_space(&mut self)
        ensures
            final(self)@ == old(self)@.ensure_trailing_space(),
    {
        let is_space = match self.prev_last {
            Some(c) => c == ' ',
            None => false,
        };
        if !is_space {
            push_char(&mut self.output, ' ');
            self.prev_last = Some(' ');
        }
    }

    /// Emit a single token, applying the `#`-newline rule: a token that
    /// starts with `#` begins a new line. Otherwise it is emitted as
    /// `emit_inline_token` does.
    pub fn emit_token(&mut self, text: &str, skip_space_before: bool)
        ensures
            final(self)@ == old(self)@.emit_token(text@, skip_space_before),
    {
        if starts_with_char(text, '#') && !self.output.as_str().is_empty() && !ends_with_char(
            self.output.as_str(),
            '\n',
        ) {
            push_char(&mut self.output, '\n');
            self.emit_inline_token(text, true);
        } else {
            self.emit_inline_token(text, skip_space_before);
        }
    }

    /// Emit a single token on the current line, with a space before it where
    /// it would otherwise run into the previous token (two identifier
    /// characters, or two symbols that would read as one punctuator).
    ///
    /// Set `skip_space_before` to suppress the space (used for a
    /// `literal_suffix`, where `123_km` must stay `123_km`).
    pub fn emit_inline_token(&mut self, text: &str, skip_space_before: bool)
        ensures
            final(self)@ == old(self)@.emit_inline(text@, skip_space_before),
    {
        match first_char(text) {
            Some(ch) => {
                if !skip_space_before {
                    match self.prev_last {
                        Some(prev) => {
                            if (is_ident_char(prev) && is_ident_char(ch)) || joins_punctuator(prev, ch) {
                                push_char(&mut self.output, ' ');
                            }
                        },
                        None => {},
                    }
                }
                push_str(&mut self.output, text);
                self.prev_last = last_char(text);
            },
            None => {},
        }
    }

    /// Called before entering any preproc directive node.
    pub fn enter_preproc_directive(&mut self)
        ensures
            final(self)@ == old(self)@.enter_preproc_directive(),
    {
        if !self.output.as_str().is_empty() && !ends_with_char(self.output.as_str(), '\n') {
            push_char(&mut self.output, '\n');
            self.prev_last = None;
        }
    }

    /// Called when entering a compound preproc directive (`#ifdef`, `#if`).
    pub fn enter_compound_directive(&mut self, kind: &str)
        requires
            old(self)@.compound_depth < usize::MAX,
        ensures
            final(self)@ == old(self)@.enter_compound_directive(kind@),
    {
        self.compound_depth = self.compound_depth + 1;
        self.body_nl_counter = Some(body_siblings_before_body(kind));
    }

    /// Called after moving to the next sibling inside a compound preproc
    /// directive, to detect when the walk reaches the body.
    pub fn on_next_sibling(&mut self, node: &SyntaxNode, source: &str)
        requires
            char_range(source@, node.start_byte as int, node.end_byte as int),
        ensures
            final(self)@ == old(self)@.on_next_sibling(
                node.children.len() > 0,
                starts_with_hash(node.text(source@)),
            ),
    {
        if self.compound_depth > 0 && node.children.len() > 0 {
            match self.body_nl_counter {
                Some(_) => {
                    let t = slice_text(source, node.start_byte, node.end_byte);
                    let hash = match first_char(t) {
                        Some(c) => c == '#',
                        None => false,
                    };
                    self.on_next_sibling_parts(true, hash);
                },
                None => {},
            }
        }
    }

    /// `on_next_sibling` for a sibling known by whether it has children and
    /// whether its text starts with `#`.
    pub(crate) fn on_next_sibling_parts(&mut self, has_children: bool, starts_with_hash: bool)
        ensures
            final(self)@ == old(self)@.on_next_sibling(has_children, starts_with_hash),
    {
        if self.compound_depth > 0 && has_children && !starts_with_hash {
            match self.body_nl_counter {
                Some(remaining) => {
                    if remaining == 0 && !ends_with_char(self.output.as_str(), '\n') {
                        push_char(&mut self.output, '\n');
                        self.prev_last = None;
                    }
                    if remaining == 0 {
                        self.body_nl_counter = None;
                    } else {
                        self.body_nl_counter = Some(remaining - 1);
                    }
                },
                None => {},
            }
        }
    }

    /// Appends a block of text as it is (the last emitted character stays as
    /// it was), then a newline unless the block ends with one.
    pub(crate) fn append_block(&mut self, text: &str)
        ensures
            final(self)@ == old(self)@.append_block(text@),
    {
        push_str(&mut self.output, text);
        if !ends_with_char(text, '\n') {
            push_char(&mut self.output, '\n');
        }
    }

    /// Called when leaving a preproc directive.
    pub fn exit_preproc_directive(&mut self, kind: &str)
        ensures
            final(self)@ == old(self)@.exit_preproc_directive(kind@),
    {
        push_char(&mut self.output, '\n');
        self.prev_last = None;
        if is_compound_directive(kind) {
            self.compound_depth = self.compound_depth.saturating_sub(1);
        }
        self.body_nl_counter = None;
    }

    /// Called after `enter_preproc_directive` for any preproc directive that
    /// lives inside a compound block (including `#else`, `#elif`), so that
    /// `on_next_sibling` can put the body on its own line.
    pub fn enter_preproc_child(&mut self, kind: &str)
        ensures
            final(self)@ == old(self)@.enter_preproc_child(kind@),
    {
        if self.compound_depth > 0 {
            self.body_nl_counter = Some(body_siblings_before_body(kind));
        }
    }

    /// Consume the state and return the compressed output.
    pub fn finish(self) -> (r: String)
        ensures
            r@ == self@.output,
    {
        self.output
    }
}

/// Whether a text starts with `#`.
pub open spec fn starts_with_hash(t: Seq<char>) -> bool {
    t.len() > 0 && t[0] == '#'
}

/// Whether `kind` names a node that lives inside a directive.
pub fn is_preproc_sub_element(kind: &str) -> (b: bool)
    ensures
        b == spec_is_preproc_sub_element(kind@),
{
    str_eq(kind, "preproc_params") || str_eq(kind, "preproc_arg") || str_eq(kind, "preproc_defined")
}

/// Whether `kind` names a top-level preprocessor directive.
pub fn is_preproc_directive(kind: &str) -> (b: bool)
    ensures
        b == spec_is_preproc_directive(kind@),
{
    proof {
        reveal_strlit("preproc_");
    }
    crate::text::has_prefix(kind, "preproc_") && !is_preproc_sub_element(kind)
}

/// Whether `kind` names a compound directive (`preproc_ifdef` or `preproc_if`).
pub fn is_compound_directive(kind: &str) -> (b: bool)
    ensures
        b == spec_is_compound_directive(kind@),
{
    str_eq(kind, "preproc_ifdef") || str_eq(kind, "preproc_if")
}

/// How many non-`#` children with children come before the body of a
/// directive of this kind: one (the condition) for `#if` and `#elif`, none
/// otherwise.
pub fn body_siblings_before_body(kind: &str) -> (n: usize)
    ensures
        n as nat == spec_body_siblings_before_body(kind@),
{
    if str_eq(kind, "preproc_if") || str_eq(kind, "preproc_elif") {
        1
    } else {
        0
    }
}

// ── The compression walk ────────────────────────────────────────────────────

/// The view of an optional kind name.
pub open spec fn opt_str_view(o: Option<&str>) -> Option<Seq<char>> {
    match o {
        Some(k) => Some(k@),
        None => None,
    }
}

/// `#include` lines and `#pragma once` lines, which `compress_stripped` leaves out.
pub open spec fn spec_is_strip_node(node: SyntaxNode, src: Seq<char>) -> bool {
    ||| node.kind@ == "preproc_include"@
    ||| (node.kind@ == "preproc_call"@ && trim_spec(node.text(src)) == "#pragma once"@)
}

/// What a node contributes before its children: a leaf other than a comment
/// emits its text (a directive's keyword by `emit_token`, which puts it on
/// a new line; any other leaf, such as the `#` of a character literal, on
/// the current line), and a macro's name gets a space after it.
pub open spec fn compress_leaf(
    st: CompressorView,
    node: SyntaxNode,
    src: Seq<char>,
    parent_kind: Option<Seq<char>>,
) -> CompressorView {
    if node.is_leaf() && node.kind@ != "comment"@ && node.text(src).len() > 0 {
        let s = if spec_is_directive_keyword(node.kind@) {
            st.emit_token(node.text(src), node.kind@ == "literal_suffix"@)
        } else {
            st.emit_inline(node.text(src), node.kind@ == "literal_suffix"@)
        };
        if (node.field_name matches Some(f) && f@ == "name"@) && parent_kind == Some(
            "preproc_def"@,
        ) {
            s.ensure_trailing_space()
        } else {
            s
        }
    } else {
        st
    }
}

/// Entering the children of a node of kind `kind`.
pub open spec fn compress_enter(st: CompressorView, kind: Seq<char>) -> CompressorView {
    let s1 = if spec_is_preproc_directive(kind) {
        st.enter_preproc_directive()
    } else {
        st
    };
    let s2 = if spec_is_compound_directive(kind) {
        s1.enter_compound_directive(kind)
    } else {
        s1
    };
    if spec_is_preproc_directive(kind) {
        s2.enter_preproc_child(kind)
    } else {
        s2
    }
}

/// The state after compressing the subtree of `node` (held by a parent of
/// kind `parent_kind`), leaving out strip nodes when `strip`.
pub open spec fn compress_node(
    st: CompressorView,
    node: SyntaxNode,
    src: Seq<char>,
    parent_kind: Option<Seq<char>>,
    strip: bool,
) -> CompressorView
    decreases node, node.children.len() + 1,
{
    let s1 = compress_leaf(st, node, src, parent_kind);
    if !(strip && spec_is_strip_node(node, src)) && node.children.len() > 0 {
        let s2 = compress_enter(s1, node.kind@);
        let s3 = compress_children(s2, node, src, node.children.len() as nat, strip);
        if spec_is_preproc_directive(node.kind@) {
            s3.exit_preproc_directive(node.kind@)
        } else {
            s3
        }
    } else {
        s1
    }
}

/// The state after compressing the first `i` children of `node`.
pub open spec fn compress_children(
    st: CompressorView,
    node: SyntaxNode,
    src: Seq<char>,
    i: nat,
    strip: bool,
) -> CompressorView
    decreases node, i,
{
    if i == 0 || i > node.children.len() {
        st
    } else {
        let prev = compress_children(st, node, src, (i - 1) as nat, strip);
        let child = node.children@[i - 1];
        let s = if i > 1 {
            prev.on_next_sibling(!child.is_leaf(), starts_with_hash(child.text(src)))
        } else {
            prev
        };
        compress_node(s, child, src, Some(node.kind@), strip)
    }
}

proof fn lemma_compound_is_directive(kind: Seq<char>)
    ensures
        spec_is_compound_directive(kind) ==> spec_is_preproc_directive(kind),
{
    reveal_strlit("preproc_ifdef");
    reveal_strlit("preproc_if");
    reveal_strlit("preproc_");
    reveal_strlit("preproc_params");
    reveal_strlit("preproc_arg");
    reveal_strlit("preproc_defined");
    if kind == "preproc_ifdef"@ {
        assert(kind.subrange(0, 8) =~= "preproc_"@);
        assert(kind[8] != "preproc_params"@[8]);
        assert(kind[8] != "preproc_arg"@[8]);
        assert(kind[8] != "preproc_defined"@[8]);
    }
    if kind == "preproc_if"@ {
        assert(kind.subrange(0, 8) =~= "preproc_"@);
        assert(kind[8] != "preproc_params"@[8]);
        assert(kind[8] != "preproc_arg"@[8]);
        assert(kind[8] != "preproc_defined"@[8]);
    }
}

/// Whether `node` is an `#include` or `#pragma once` node.
fn is_strip_node(node: &SyntaxNode, src: &str) -> (b: bool)
    requires
        char_range(src@, node.start_byte as int, node.end_byte as int),
    ensures
        b == spec_is_strip_node(*node, src@),
{
    if str_eq(node.kind.as_str(), "preproc_include") {
        true
    } else if str_eq(node.kind.as_str(), "preproc_call") {
        let t = slice_text(src, node.start_byte, node.end_byte);
        str_eq(trim(t), "#pragma once")
    } else {
        false
    }
}

fn compress_visit(
    st: &mut CompressorState,
    node: &SyntaxNode,
    src: &str,
    parent_kind: Option<&str>,
    strip: bool,
    Ghost(depth): Ghost<nat>,
)
    requires
        node.fits(src@, depth),
        old(st)@.compound_depth + depth <= usize::MAX,
    ensures
        final(st)@ == compress_node(old(st)@, *node, src@, opt_str_view(parent_kind), strip),
        final(st)@.compound_depth <= old(st)@.compound_depth,
    decreases node,
{
    let ghost st0 = st@;
    let kind = node.kind.as_str();
    if node.children.len() == 0 && !str_eq(kind, "comment") {
        let text = slice_text(src, node.start_byte, node.end_byte);
        if !text.is_empty() {
            if is_directive_keyword(kind) {
                st.emit_token(text, str_eq(kind, "literal_suffix"));
            } else {
                st.emit_inline_token(text, str_eq(kind, "literal_suffix"));
            }
            let is_name = match &node.field_name {
                Some(f) => str_eq(f.as_str(), "name"),
                None => false,
            };
            let under_define = match parent_kind {
                Some(p) => str_eq(p, "preproc_def"),
                None => false,
            };
            if is_name && under_define {
                st.ensure_trailing_space();
            }
        }
    }
    assert(st@ == compress_leaf(st0, *node, src@, opt_str_view(parent_kind)));
    if !(strip && is_strip_node(node, src)) && node.children.len() > 0 {
        let directive = is_preproc_directive(kind);
        if directive {
            st.enter_preproc_directive();
        }
        if is_compound_directive(kind) {
            st.enter_compound_directive(kind);
        }
        if directive {
            st.enter_preproc_child(kind);
        }
        let ghost entered = st@;
        assert(entered == compress_enter(compress_leaf(st0, *node, src@, opt_str_view(parent_kind)), node.kind@));
        let n = node.children.len();
        let mut i: usize = 0;
        while i < n
            invariant
                n == node.children.len(),
                0 <= i <= n,
                node.fits(src@, depth),
                entered.compound_depth <= st0.compound_depth + 1,
                !spec_is_compound_directive(node.kind@) ==> entered.compound_depth <= st0.compound_depth,
                st0.compound_depth + depth <= usize::MAX,
                st@.compound_depth <= entered.compound_depth,
                st@ == compress_children(entered, *node, src@, i as nat, strip),
                kind@ == node.kind@,
            decreases n - i,
        {
            let child = &node.children[i];
            assert(child.fits(src@, (depth - 1) as nat));
            if i > 0 {
                st.on_next_sibling(child, src);
            }
            compress_visit(st, child, src, Some(kind), strip, Ghost((depth - 1) as nat));
            i = i + 1;
        }
        proof {
            lemma_compound_is_directive(node.kind@);
        }
        if directive {
            st.exit_preproc_directive(kind);
        }
    }
}

/// Compress C/C++ source code while keeping its meaning.
///
/// Comments are dropped, a space is kept only between two identifier-like
/// tokens and between two symbols that would otherwise fuse into another
/// one (such as `+` `+` or `-` `>`), other symbols are joined directly, and
/// every preprocessor directive stands on its own line (the body of
/// `#ifdef` / `#if` too).
pub fn compress(tree: &SyntaxTree, source: &str) -> (r: String)
    requires
        tree.wf(source@),
    ensures
        r@ == compress_node(CompressorView::initial(), tree.root, source@, None, false).output,
        drop_blanks(r@) == drop_blanks(kept_text(tree.root, source@, false)),
{
    compress_impl(tree, source, false)
}

/// Like `compress`, but also leaves out the `#include` and `#pragma once`
/// lines (no content, no trailing newline) in the same walk.
pub fn compress_stripped(tree: &SyntaxTree, source: &str) -> (r: String)
    requires
        tree.wf(source@),
    ensures
        r@ == compress_node(CompressorView::initial(), tree.root, source@, None, true).output,
        drop_blanks(r@) == drop_blanks(kept_text(tree.root, source@, true)),
{
    compress_impl(tree, source, true)
}

fn compress_impl(tree: &SyntaxTree, source: &str, strip: bool) -> (r: String)
    requires
        tree.wf(source@),
    ensures
        r@ == compress_node(CompressorView::initial(), tree.root, source@, None, strip).output,
        drop_blanks(r@) == drop_blanks(kept_text(tree.root, source@, strip)),
{
    proof {
        lemma_compress_node_keeps_tokens(CompressorView::initial(), tree.root, source@, None, strip);
        assert(drop_blanks(Seq::<char>::empty()) + drop_blanks(kept_text(tree.root, source@, strip))
            =~= drop_blanks(kept_text(tree.root, source@, strip)));
    }
    let mut st = CompressorState::new(source.len() / 2);
    compress_visit(&mut st, &tree.root, source, None, strip, Ghost(usize::MAX as nat));
    st.finish()
}

// ── Laws ────────────────────────────────────────────────────────────────────

/// Every step of the compressor only appends to its output: what was
/// written stays written.
pub proof fn lemma_steps_append_only(
    st: CompressorView,
    text: Seq<char>,
    skip: bool,
    kind: Seq<char>,
    has_children: bool,
    hash: bool,
)
    ensures
        st.output.is_prefix_of(st.ensure_newline().output),
        st.output.is_prefix_of(st.ensure_trailing_space().output),
        st.output.is_prefix_of(st.emit_token(text, skip).output),
        st.output.is_prefix_of(st.emit_inline(text, skip).output),
        st.output.is_prefix_of(st.enter_preproc_directive().output),
        st.enter_compound_directive(kind).output == st.output,
        st.output.is_prefix_of(st.on_next_sibling(has_children, hash).output),
        st.output.is_prefix_of(st.exit_preproc_directive(kind).output),
        st.output.is_prefix_of(st.append_block(text).output),
        st.enter_preproc_child(kind).output == st.output,
{
    lemma_inline_appends(st, text, skip);
    let nl = CompressorView { output: st.output.push('\n'), ..st };
    lemma_inline_appends(nl, text, true);
    assert(st.output.is_prefix_of(nl.output));
    assert(st.output.is_prefix_of(st.output + text));
    assert(st.output.is_prefix_of((st.output + text).push('\n')));
}

/// Asking twice for a line break is asking once; afterwards the output is
/// empty or ends with a line break.
pub proof fn lemma_ensure_newline_idempotent(st: CompressorView)
    ensures
        st.ensure_newline().ensure_newline() == st.ensure_newline(),
        st.ensure_newline().output.len() == 0 || ends_with_newline(st.ensure_newline().output),
{
}

/// A directive ends its line: leaving one leaves the output ending with a
/// line break.
pub proof fn lemma_exit_ends_line(st: CompressorView, kind: Seq<char>)
    ensures
        ends_with_newline(st.exit_preproc_directive(kind).output),
{
}

proof fn lemma_inline_appends(st: CompressorView, text: Seq<char>, skip: bool)
    ensures
        st.output.is_prefix_of(st.emit_inline(text, skip).output),
{
    if text.len() > 0 {
        let o = if !skip && (st.prev_last matches Some(p) && spec_needs_space(p, text[0])) {
            st.output.push(' ')
        } else {
            st.output
        };
        assert(st.output.is_prefix_of(o));
        assert(o.is_prefix_of(o + text));
    }
}

/// Emitting a token on the current line appends the token whole. When the
/// previous token ended with a character that would run into the token's
/// first one (two identifier characters, or two symbols that would read as
/// one punctuator or open a comment), and the token is not a literal
/// suffix, exactly one space keeps them apart; otherwise they are joined
/// directly.
pub proof fn lemma_emit_inline_boundaries(st: CompressorView, text: Seq<char>, skip: bool)
    requires
        text.len() > 0,
    ensures
        ({
            let o = st.emit_inline(text, skip).output;
            let at = o.len() - text.len();
            &&& o.subrange(at, o.len() as int) == text
            &&& (!skip && (st.prev_last matches Some(p) && spec_needs_space(p, text[0]))) ==> at >= 1 && o[at
                - 1] == ' ' && o.subrange(0, at - 1) == st.output
            &&& !(!skip && (st.prev_last matches Some(p) && spec_needs_space(p, text[0]))) ==> o.subrange(0, at)
                == st.output
        }),
{
    let o1 = if !skip && (st.prev_last matches Some(p) && spec_needs_space(p, text[0])) {
        st.output.push(' ')
    } else {
        st.output
    };
    let o = o1 + text;
    assert(o.subrange(o1.len() as int, o.len() as int) =~= text);
    assert(o.subrange(0, o1.len() as int) =~= o1);
    if o1 != st.output {
        assert(o1.drop_last() =~= st.output);
        assert(o.subrange(0, o1.len() - 1) =~= st.output);
        assert(o[o1.len() - 1] == o1.last());
    }
}

/// A token that starts with `#` starts a line: `emit_token` writes it whole,
/// right after a line break or at the very start of the output, with
/// nothing but that line break added before it.
pub proof fn lemma_emit_token_hash_starts_line(st: CompressorView, text: Seq<char>, skip: bool)
    requires
        text.len() > 0,
        text[0] == '#',
        st.prev_last matches Some(p) ==> !spec_joins_punctuator(p, '#') || skip || (st.output.len() > 0
            && !ends_with_newline(st.output)),
    ensures
        ({
            let o = st.emit_token(text, skip).output;
            let at = o.len() - text.len();
            &&& at >= st.output.len()
            &&& o.subrange(at, o.len() as int) == text
            &&& at == 0 || o[at - 1] == '\n'
        }),
{
    if st.output.len() > 0 && !ends_with_newline(st.output) {
        let nl = CompressorView { output: st.output.push('\n'), ..st };
        lemma_emit_inline_boundaries(nl, text, true);
        let o = nl.emit_inline(text, true).output;
        assert(o.subrange(0, o.len() - text.len()) == nl.output);
        assert(o[o.len() - text.len() - 1] == nl.output.last());
    } else {
        lemma_emit_inline_boundaries(st, text, skip);
        assert(!spec_is_ident_char('#'));
        let o = st.emit_inline(text, skip).output;
        assert(o.subrange(0, o.len() - text.len()) == st.output);
        if st.output.len() > 0 {
            assert(o[o.len() - text.len() - 1] == st.output.last());
        }
    }
}

/// A directive's keyword starts a line: the leaf of `#include`, `#endif` or
/// the like (whose text starts with `#`) is written right after a line
/// break, or at the very start.
pub proof fn lemma_directive_keyword_starts_line(
    st: CompressorView,
    node: SyntaxNode,
    src: Seq<char>,
    parent_kind: Option<Seq<char>>,
)
    requires
        node.is_leaf(),
        spec_is_directive_keyword(node.kind@),
        node.text(src).len() > 0,
        node.text(src)[0] == '#',
        st.prev_last matches Some(p) ==> !spec_joins_punctuator(p, '#'),
    ensures
        exists|at: int|
            0 <= at && at + node.text(src).len() <= compress_leaf(st, node, src, parent_kind).output.len()
                && #[trigger] compress_leaf(st, node, src, parent_kind).output.subrange(at, at + node.text(src).len())
                == node.text(src) && (at == 0 || compress_leaf(st, node, src, parent_kind).output[at - 1] == '\n'),
{
    reveal_strlit("comment");
    reveal_strlit("preproc_directive");
    let k = node.kind@;
    assert(k != "comment"@) by {
        if k.len() > 0 && k[0] == '#' {
            assert("comment"@[0] == 'c');
        } else {
            assert("comment"@.len() != "preproc_directive"@.len());
        }
    }
    let t = node.text(src);
    lemma_emit_token_hash_starts_line(st, t, k == "literal_suffix"@);
    let s = st.emit_token(t, k == "literal_suffix"@);
    let o = s.output;
    let at = o.len() - t.len();
    let full = compress_leaf(st, node, src, parent_kind).output;
    assert(o.is_prefix_of(full)) by {
        lemma_steps_append_only(s, t, false, k, false, false);
    }
    assert(full.subrange(at, at + t.len()) =~= o.subrange(at, o.len() as int));
    if at > 0 {
        assert(full[at - 1] == o[at - 1]);
    }
}



/// A space or a line break: what compression may add or remove between tokens.
pub open spec fn is_blank(c: char) -> bool {
    c == ' ' || c == '\n'
}

/// `s` without its spaces and line breaks.
pub open spec fn drop_blanks(s: Seq<char>) -> Seq<char>
    decreases s.len(),
{
    if s.len() == 0 {
        s
    } else if is_blank(s.last()) {
        drop_blanks(s.drop_last())
    } else {
        drop_blanks(s.drop_last()).push(s.last())
    }
}

/// The texts of the leaves under `node` that are not comments, in order,
/// leaving out the subtrees of `#include` and `#pragma once` lines when `strip`.
pub open spec fn kept_text(node: SyntaxNode, src: Seq<char>, strip: bool) -> Seq<char>
    decreases node, node.children.len() + 1,
{
    if node.is_leaf() {
        if node.kind@ != "comment"@ {
            node.text(src)
        } else {
            Seq::empty()
        }
    } else if strip && spec_is_strip_node(node, src) {
        Seq::empty()
    } else {
        kept_text_children(node, src, node.children.len() as nat, strip)
    }
}

/// The kept texts of the first `i` children of `node`.
pub open spec fn kept_text_children(node: SyntaxNode, src: Seq<char>, i: nat, strip: bool) -> Seq<char>
    decreases node, i,
{
    if i == 0 || i > node.children.len() {
        Seq::empty()
    } else {
        kept_text_children(node, src, (i - 1) as nat, strip) + kept_text(node.children@[i - 1], src, strip)
    }
}

pub(crate) proof fn lemma_drop_blanks_add(a: Seq<char>, b: Seq<char>)
    ensures
        drop_blanks(a + b) == drop_blanks(a) + drop_blanks(b),
    decreases b.len(),
{
    if b.len() == 0 {
        assert(a + b =~= a);
        assert(drop_blanks(a) + drop_blanks(b) =~= drop_blanks(a));
    } else {
        lemma_drop_blanks_add(a, b.drop_last());
        assert((a + b).drop_last() =~= a + b.drop_last());
        assert((a + b).last() == b.last());
        if !is_blank(b.last()) {
            assert(drop_blanks(a) + drop_blanks(b.drop_last()).push(b.last()) =~= (drop_blanks(a)
                + drop_blanks(b.drop_last())).push(b.last()));
        }
    }
}

pub(crate) proof fn lemma_drop_blanks_push_blank(s: Seq<char>, c: char)
    requires
        is_blank(c),
    ensures
        drop_blanks(s.push(c)) == drop_blanks(s),
{
    assert(s.push(c).drop_last() =~= s);
}

/// The steps of the compressor other than emitting a token add nothing but
/// spaces and line breaks; emitting a token adds the token and blanks.
pub(crate) proof fn lemma_steps_add_blanks(st: CompressorView, text: Seq<char>, skip: bool, kind: Seq<char>, has_children: bool, hash: bool)
    ensures
        drop_blanks(st.ensure_newline().output) == drop_blanks(st.output),
        drop_blanks(st.ensure_trailing_space().output) == drop_blanks(st.output),
        drop_blanks(st.on_next_sibling(has_children, hash).output) == drop_blanks(st.output),
        drop_blanks(st.exit_preproc_directive(kind).output) == drop_blanks(st.output),
        drop_blanks(compress_enter(st, kind).output) == drop_blanks(st.output),
        drop_blanks(st.emit_token(text, skip).output) == drop_blanks(st.output) + drop_blanks(text),
        drop_blanks(st.emit_inline(text, skip).output) == drop_blanks(st.output) + drop_blanks(text),
{
    lemma_drop_blanks_push_blank(st.output, '\n');
    lemma_drop_blanks_push_blank(st.output, ' ');
    if text.len() > 0 {
        lemma_drop_blanks_add(st.output, text);
        lemma_drop_blanks_add(st.output.push(' '), text);
        let nl = st.output.push('\n');
        lemma_drop_blanks_add(nl, text);
        lemma_drop_blanks_add(nl.push(' '), text);
        lemma_drop_blanks_push_blank(nl, ' ');
    } else {
        assert(drop_blanks(text) =~= Seq::<char>::empty());
        assert(drop_blanks(st.output) + drop_blanks(text) =~= drop_blanks(st.output));
    }
}

/// Compressing a subtree adds to the output exactly the kept leaf texts of
/// the subtree, up to spaces and line breaks.
pub proof fn lemma_compress_node_keeps_tokens(
    st: CompressorView,
    node: SyntaxNode,
    src: Seq<char>,
    parent_kind: Option<Seq<char>>,
    strip: bool,
)
    ensures
        drop_blanks(compress_node(st, node, src, parent_kind, strip).output) == drop_blanks(st.output)
            + drop_blanks(kept_text(node, src, strip)),
    decreases node, node.children.len() + 1,
{
    let s1 = compress_leaf(st, node, src, parent_kind);
    if node.is_leaf() && node.kind@ != "comment"@ && node.text(src).len() > 0 {
        let s = if spec_is_directive_keyword(node.kind@) {
            st.emit_token(node.text(src), node.kind@ == "literal_suffix"@)
        } else {
            st.emit_inline(node.text(src), node.kind@ == "literal_suffix"@)
        };
        lemma_steps_add_blanks(st, node.text(src), node.kind@ == "literal_suffix"@, node.kind@, false, false);
        lemma_steps_add_blanks(s, node.text(src), false, node.kind@, false, false);
    } else {
        assert(s1 == st);
        if node.is_leaf() {
            assert(drop_blanks(kept_text(node, src, strip)) =~= Seq::<char>::empty()) by {
                if node.kind@ != "comment"@ {
                    assert(node.text(src) =~= Seq::<char>::empty());
                }
            }
            assert(drop_blanks(st.output) + Seq::<char>::empty() =~= drop_blanks(st.output));
        }
    }
    if !(strip && spec_is_strip_node(node, src)) && node.children.len() > 0 {
        let s2 = compress_enter(s1, node.kind@);
        lemma_steps_add_blanks(s1, Seq::empty(), false, node.kind@, false, false);
        lemma_compress_children_keeps_tokens(s2, node, src, node.children.len() as nat, strip);
        let s3 = compress_children(s2, node, src, node.children.len() as nat, strip);
        lemma_steps_add_blanks(s3, Seq::empty(), false, node.kind@, false, false);
    } else if node.children.len() > 0 {
        assert(drop_blanks(st.output) + drop_blanks(Seq::<char>::empty()) =~= drop_blanks(st.output));
    }
}

/// Compressing the first `i` children of a node adds their kept leaf texts,
/// up to spaces and line breaks.
pub proof fn lemma_compress_children_keeps_tokens(
    st: CompressorView,
    node: SyntaxNode,
    src: Seq<char>,
    i: nat,
    strip: bool,
)
    ensures
        drop_blanks(compress_children(st, node, src, i, strip).output) == drop_blanks(st.output)
            + drop_blanks(kept_text_children(node, src, i, strip)),
    decreases node, i,
{
    if i == 0 || i > node.children.len() {
        assert(drop_blanks(st.output) + drop_blanks(Seq::<char>::empty()) =~= drop_blanks(st.output));
    } else {
        lemma_compress_children_keeps_tokens(st, node, src, (i - 1) as nat, strip);
        let prev = compress_children(st, node, src, (i - 1) as nat, strip);
        let child = node.children@[i - 1];
        let s = if i > 1 {
            prev.on_next_sibling(!child.is_leaf(), starts_with_hash(child.text(src)))
        } else {
            prev
        };
        lemma_steps_add_blanks(prev, Seq::empty(), false, node.kind@, !child.is_leaf(), starts_with_hash(child.text(src)));
        lemma_compress_node_keeps_tokens(s, child, src, Some(node.kind@), strip);
        lemma_drop_blanks_add(
            kept_text_children(node, src, (i - 1) as nat, strip),
            kept_text(child, src, strip),
        );
        assert(drop_blanks(st.output) + drop_blanks(kept_text_children(node, src, (i - 1) as nat, strip))
            + drop_blanks(kept_text(child, src, strip)) =~= drop_blanks(st.output) + drop_blanks(
            kept_text_children(node, src, i, strip),
        ));
    }
}

} // verus!
