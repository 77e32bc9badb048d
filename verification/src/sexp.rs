//! Indented rendering of a one-line S-expression, such as tree-sitter
//! prints for a syntax tree.

use vstd::prelude::*;
use crate::compressor::{drop_blanks, lemma_drop_blanks_add};
use crate::text::{byte_len, lemma_chars_within_bytes, push_char};

verus! {

broadcast use vstd::string::axiom_spec_iter;

/// The nesting depth after `s`: opening minus closing parentheses.
pub open spec fn depth(s: Seq<char>) -> int
    decreases s.len(),
{
    if s.len() == 0 {
        0
    } else {
        let d = depth(s.drop_last());
        if s.last() == '(' {
            d + 1
        } else if s.last() == ')' {
            d - 1
        } else {
            d
        }
    }
}

/// No prefix of `s` closes more parentheses than it has opened.
pub open spec fn never_below_zero(s: Seq<char>) -> bool {
    forall|i: int| 0 <= i <= s.len() ==> depth(#[trigger] s.take(i)) >= 0
}

/// Two spaces per nesting level.
pub open spec fn indent(level: int) -> Seq<char> {
    Seq::new((2 * level) as nat, |_i: int| ' ')
}

/// `s` with every space replaced by a line break and the indentation of the
/// nesting depth reached before it; every other character is kept.
pub open spec fn pretty_sexp(s: Seq<char>) -> Seq<char>
    decreases s.len(),
{
    if s.len() == 0 {
        Seq::empty()
    } else {
        let init = s.drop_last();
        if s.last() == ' ' {
            pretty_sexp(init) + seq!['\n'] + indent(depth(init))
        } else {
            pretty_sexp(init).push(s.last())
        }
    }
}

proof fn lemma_depth_bound(s: Seq<char>)
    ensures
        depth(s) <= s.len(),
    decreases s.len(),
{
    if s.len() > 0 {
        lemma_depth_bound(s.drop_last());
    }
}

/// Appends `level` indentation steps of two spaces each.
fn push_indent(out: &mut String, level: usize)
    ensures
        final(out)@ == old(out)@ + indent(level as int),
{
    let mut k: usize = 0;
    while k < level
        invariant
            k <= level,
            out@ == old(out)@ + indent(k as int),
        decreases level - k,
    {
        push_char(out, ' ');
        push_char(out, ' ');
        assert(indent((k + 1) as int) =~= indent(k as int).push(' ').push(' '));
        k = k + 1;
    }
}

/// Whether no prefix of `s` closes more parentheses than it has opened, the
/// condition under which `pretty_print_sexp` can format it.
pub fn never_closes_unopened(s: &str) -> (b: bool)
    ensures
        b == never_below_zero(s@),
{
    let mut level: usize = 0;
    let total = byte_len(s);
    proof {
        lemma_chars_within_bytes(s@);
        assert(s@.take(0) =~= Seq::<char>::empty());
    }
    for c in it: s.chars()
        invariant
            it.seq() == s@,
            s@.len() <= total,
            0 <= it.index() <= s@.len(),
            level == depth(s@.take(it.index())),
            forall|j: int| 0 <= j <= it.index() ==> depth(#[trigger] s@.take(j)) >= 0,
    {
        let ghost i = it.index();
        assert(s@.take(i + 1).drop_last() =~= s@.take(i));
        assert(s@.take(i + 1).last() == c);
        if c == '(' {
            proof {
                lemma_depth_bound(s@.take(i));
            }
            level = level + 1;
        } else if c == ')' {
            if level == 0 {
                assert(depth(s@.take(i + 1)) < 0);
                return false;
            }
            level = level - 1;
        }
        assert forall|j: int| 0 <= j <= i + 1 implies depth(#[trigger] s@.take(j)) >= 0 by {
            if j == i + 1 {
            }
        }
    }
    assert(s@.take(s@.len() as int) =~= s@);
    true
}

/// Formats a one-line S-expression as an indented multi-line string: each
/// space starts a new line indented by two spaces per open parenthesis.
pub fn pretty_print_sexp(sexp: &str) -> (r: String)
    requires
        never_below_zero(sexp@),
    ensures
        r@ == pretty_sexp(sexp@),
{
    let mut formatted = String::new();
    let mut indent_level: usize = 0;
    // The byte length bounds the number of characters, and so the depth.
    let total = byte_len(sexp);
    proof {
        lemma_chars_within_bytes(sexp@);
    }
    for c in it: sexp.chars()
        invariant
            it.seq() == sexp@,
            never_below_zero(sexp@),
            sexp@.len() <= total,
            0 <= it.index() <= sexp@.len(),
            indent_level == depth(sexp@.take(it.index())),
            formatted@ == pretty_sexp(sexp@.take(it.index())),
    {
        let ghost i = it.index();
        let ghost pre = sexp@.take(i);
        assert(sexp@.take(i + 1).drop_last() =~= pre);
        assert(sexp@.take(i + 1).last() == c);
        if c == '(' {
            proof {
                lemma_depth_bound(pre);
                assert(depth(pre) + 1 <= total);
            }
            indent_level = indent_level + 1;
            push_char(&mut formatted, c);
        } else if c == ')' {
            assert(depth(sexp@.take(i + 1)) >= 0);
            indent_level = indent_level - 1;
            push_char(&mut formatted, c);
        } else if c == ' ' {
            push_char(&mut formatted, '\n');
            push_indent(&mut formatted, indent_level);
        } else {
            push_char(&mut formatted, c);
        }
    }
    assert(sexp@.take(sexp@.len() as int) =~= sexp@);
    formatted
}

/// Formatting changes only spaces and line breaks: every other character of
/// the S-expression is kept, in order.
pub proof fn lemma_pretty_keeps_text(s: Seq<char>)
    ensures
        drop_blanks(pretty_sexp(s)) == drop_blanks(s),
    decreases s.len(),
{
    if s.len() > 0 {
        let init = s.drop_last();
        lemma_pretty_keeps_text(init);
        if s.last() == ' ' {
            let n = indent(depth(init));
            lemma_drop_blanks_add(pretty_sexp(init) + seq!['\n'], n);
            lemma_drop_blanks_add(pretty_sexp(init), seq!['\n']);
            lemma_drop_blanks_only_spaces(n);
            let nl = seq!['\n'];
            assert(nl.last() == '\n');
            assert(nl.drop_last() =~= Seq::<char>::empty());
            assert(drop_blanks(nl.drop_last()) == Seq::<char>::empty());
            assert(drop_blanks(nl) == Seq::<char>::empty());
            assert(drop_blanks(pretty_sexp(init)) + Seq::<char>::empty() + Seq::<char>::empty() =~= drop_blanks(
                pretty_sexp(init),
            ));
        } else {
            assert(pretty_sexp(init).push(s.last()).drop_last() =~= pretty_sexp(init));
        }
    }
}

proof fn lemma_drop_blanks_only_spaces(n: Seq<char>)
    requires
        forall|i: int| 0 <= i < n.len() ==> #[trigger] n[i] == ' ',
    ensures
        drop_blanks(n) == Seq::<char>::empty(),
    decreases n.len(),
{
    if n.len() > 0 {
        lemma_drop_blanks_only_spaces(n.drop_last());
    }
}

/// How many times `c` occurs in `s`.
pub open spec fn count_char(s: Seq<char>, c: char) -> nat
    decreases s.len(),
{
    if s.len() == 0 {
        0
    } else {
        count_char(s.drop_last(), c) + if s.last() == c {
            1nat
        } else {
            0nat
        }
    }
}

proof fn lemma_count_add(a: Seq<char>, b: Seq<char>, c: char)
    ensures
        count_char(a + b, c) == count_char(a, c) + count_char(b, c),
    decreases b.len(),
{
    if b.len() == 0 {
        assert(a + b =~= a);
    } else {
        lemma_count_add(a, b.drop_last(), c);
        assert((a + b).drop_last() =~= a + b.drop_last());
    }
}

proof fn lemma_count_spaces_only(n: Seq<char>)
    requires
        forall|i: int| 0 <= i < n.len() ==> #[trigger] n[i] == ' ',
    ensures
        count_char(n, '\n') == 0,
    decreases n.len(),
{
    if n.len() > 0 {
        lemma_count_spaces_only(n.drop_last());
    }
}

/// Formatting starts one new line for each space of the S-expression: the
/// output has as many line breaks as the input has spaces and line breaks.
pub proof fn lemma_pretty_line_count(s: Seq<char>)
    ensures
        count_char(pretty_sexp(s), '\n') == count_char(s, ' ') + count_char(s, '\n'),
    decreases s.len(),
{
    if s.len() > 0 {
        let init = s.drop_last();
        lemma_pretty_line_count(init);
        if s.last() == ' ' {
            let nl = seq!['\n'];
            lemma_count_add(pretty_sexp(init) + nl, indent(depth(init)), '\n');
            lemma_count_add(pretty_sexp(init), nl, '\n');
            lemma_count_spaces_only(indent(depth(init)));
            assert(nl.drop_last() =~= Seq::<char>::empty());
            assert(nl.last() == '\n');
            assert(count_char(nl.drop_last(), '\n') == 0);
            assert(count_char(nl, '\n') == 1);
        } else {
            assert(pretty_sexp(init).push(s.last()).drop_last() =~= pretty_sexp(init));
        }
    }
}

} // verus!
