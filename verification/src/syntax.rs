//! The library's own model of a C/C++ syntax tree: each node carries its
//! kind, the field name under which its parent holds it, its byte range in
//! the source and its children in order.

use vstd::prelude::*;
use crate::text::{char_range, text_of};

verus! {

/// One node of a syntax tree.
pub struct SyntaxNode {
    /// The grammar's name for the node, such as `preproc_include` or `identifier`.
    pub kind: String,
    /// The field under which the parent holds this node, such as `name`.
    pub field_name: Option<String>,
    /// Byte offset of the node's first byte in the source.
    pub start_byte: usize,
    /// Byte offset just past the node's last byte in the source.
    pub end_byte: usize,
    /// The node's children, in source order.
    pub children: Vec<SyntaxNode>,
}

/// A syntax tree: the root node of a parsed source file.
pub struct SyntaxTree {
    pub root: SyntaxNode,
}

impl SyntaxNode {
    /// The node's source text.
    pub open spec fn text(&self, src: Seq<char>) -> Seq<char> {
        text_of(src, self.start_byte as int, self.end_byte as int)
    }

    /// Whether the node has no children.
    pub open spec fn is_leaf(&self) -> bool {
        self.children.len() == 0
    }

    /// Every node of the subtree covers a character range of `src`, and the
    /// subtree is at most `depth` levels deep.
    pub open spec fn fits(&self, src: Seq<char>, depth: nat) -> bool
        decreases self,
    {
        &&& char_range(src, self.start_byte as int, self.end_byte as int)
        &&& depth > 0
        &&& forall|i: int|
            0 <= i < self.children.len() ==> (#[trigger] self.children@[i]).fits(src, (depth - 1) as nat)
    }
}

impl SyntaxTree {
    /// The tree describes `src`: all nodes lie on character boundaries of it,
    /// and the tree is no deeper than a machine word can count.
    pub open spec fn wf(&self, src: Seq<char>) -> bool {
        self.root.fits(src, usize::MAX as nat)
    }
}

} // verus!
