//! Text helpers: the character model of source slices and the few `String`
//! operations that the rest of the library builds on.

use vstd::prelude::*;
use vstd::string::*;
use vstd::utf8::*;

verus! {

broadcast use vstd::utf8::group_utf8_lib;

/// Appends one character (std `String::push`).
#[verifier::external_body]
pub(crate) fn push_char(s: &mut String, c: char)
    ensures
        final(s)@ == old(s)@.push(c),
{
    s.push(c);
}

/// Appends a string slice (std `String::push_str`).
#[verifier::external_body]
pub(crate) fn push_str(s: &mut String, t: &str)
    ensures
        final(s)@ == old(s)@ + t@,
{
    s.push_str(t);
}

/// An empty string with room for `capacity` bytes (std `String::with_capacity`).
#[verifier::external_body]
pub(crate) fn string_with_capacity(capacity: usize) -> (r: String)
    ensures
        r@ == Seq::<char>::empty(),
{
    String::with_capacity(capacity)
}

/// Whether `s` ends with the character `c` (std `str::ends_with`).
#[verifier::external_body]
pub(crate) fn ends_with_char(s: &str, c: char) -> (b: bool)
    ensures
        b == (s@.len() > 0 && s@.last() == c),
{
    s.ends_with(c)
}

/// Whether `s` starts with the character `c`.
pub(crate) fn starts_with_char(s: &str, c: char) -> (b: bool)
    ensures
        b == (s@.len() > 0 && s@[0] == c),
{
    match first_char(s) {
        Some(f) => f == c,
        None => false,
    }
}

/// Whether two string slices hold the same characters (std `str` equality).
#[verifier::external_body]
pub(crate) fn str_eq(a: &str, b: &str) -> (r: bool)
    ensures
        r == (a@ == b@),
{
    a == b
}

/// Whether `s` starts with `prefix` (std `str::starts_with` with a `&str` pattern).
#[verifier::external_body]
pub(crate) fn has_prefix(s: &str, prefix: &str) -> (r: bool)
    ensures
        r == (prefix@.len() <= s@.len() && s@.subrange(0, prefix@.len() as int) == prefix@),
{
    s.starts_with(prefix)
}

/// The first character of `s`.
pub(crate) fn first_char(s: &str) -> (r: Option<char>)
    ensures
        r == (if s@.len() > 0 { Some(s@[0]) } else { None::<char> }),
{
    if s.is_empty() {
        None
    } else {
        Some(s.get_char(0))
    }
}

/// The last character of `s`.
pub(crate) fn last_char(s: &str) -> (r: Option<char>)
    ensures
        r == (if s@.len() > 0 { Some(s@.last()) } else { None::<char> }),
{
    let n = s.unicode_len();
    if n == 0 {
        None
    } else {
        Some(s.get_char(n - 1))
    }
}

/// Unicode `White_Space`: the characters that `str::trim` removes.
pub open spec fn is_white_space(c: char) -> bool {
    let u = c as u32;
    ||| 0x09 <= u <= 0x0d
    ||| u == 0x20
    ||| u == 0x85
    ||| u == 0xa0
    ||| u == 0x1680
    ||| 0x2000 <= u <= 0x200a
    ||| u == 0x2028
    ||| u == 0x2029
    ||| u == 0x202f
    ||| u == 0x205f
    ||| u == 0x3000
}

/// `r` is `s` with its leading and trailing white space removed, the
/// characters from `i` to `j`.
pub open spec fn trimmed_at(s: Seq<char>, r: Seq<char>, i: int, j: int) -> bool {
    &&& 0 <= i <= j <= s.len()
    &&& r == s.subrange(i, j)
    &&& forall|k: int| 0 <= k < i ==> is_white_space(#[trigger] s[k])
    &&& forall|k: int| j <= k < s.len() ==> is_white_space(#[trigger] s[k])
    &&& i < j ==> !is_white_space(s[i]) && !is_white_space(s[j - 1])
}

/// `s` without leading and trailing white space.
pub open spec fn trim_spec(s: Seq<char>) -> Seq<char> {
    (choose|r: Seq<char>, i: int, j: int| trimmed_at(s, r, i, j)).0
}

proof fn lemma_trimmed_unique(s: Seq<char>, r1: Seq<char>, i1: int, j1: int, r2: Seq<char>, i2: int, j2: int)
    requires
        trimmed_at(s, r1, i1, j1),
        trimmed_at(s, r2, i2, j2),
    ensures
        r1 == r2,
{
    if i1 < j1 && i2 < j2 {
        if i1 < i2 { assert(is_white_space(s[i1])); }
        if i2 < i1 { assert(is_white_space(s[i2])); }
        if j1 < j2 { assert(is_white_space(s[j2 - 1])); }
        if j2 < j1 { assert(is_white_space(s[j1 - 1])); }
        assert(r1 =~= r2);
    } else if i1 < j1 {
        assert(is_white_space(s[i1]));
    } else if i2 < j2 {
        assert(is_white_space(s[i2]));
    } else {
        assert(r1 =~= r2);
    }
}

/// `s` with leading and trailing white space removed (std `str::trim`).
#[verifier::external_body]
fn str_trim_raw(s: &str) -> (r: &str)
    ensures
        exists|i: int, j: int| trimmed_at(s@, r@, i, j),
{
    s.trim()
}

/// `s` with leading and trailing white space removed.
pub fn trim(s: &str) -> (r: &str)
    ensures
        r@ == trim_spec(s@),
{
    let r = str_trim_raw(s);
    proof {
        let (i, j) = choose|i: int, j: int| trimmed_at(s@, r@, i, j);
        let (c, i2, j2) = choose|c: Seq<char>, i2: int, j2: int| trimmed_at(s@, c, i2, j2);
        lemma_trimmed_unique(s@, r@, i, j, c, i2, j2);
    }
    r
}

/// The views of a sequence of strings.
pub open spec fn strings_view(v: Seq<String>) -> Seq<Seq<char>> {
    v.map_values(|s: String| s@)
}

/// A copy of each string of `v`, in order.
pub(crate) fn clone_strings(v: &Vec<String>) -> (r: Vec<String>)
    ensures
        strings_view(r@) == strings_view(v@),
{
    let mut r: Vec<String> = Vec::new();
    let n = v.len();
    let mut i: usize = 0;
    while i < n
        invariant
            n == v@.len(),
            i <= n,
            strings_view(r@) == strings_view(v@).take(i as int),
        decreases n - i,
    {
        let ghost prev = r@;
        let c = v[i].clone();
        r.push(c);
        assert(r@ == prev.push(c));
        assert(strings_view(r@) =~= strings_view(prev).push(c@));
        assert(strings_view(r@) =~= strings_view(v@).take((i + 1) as int));
        i = i + 1;
    }
    assert(strings_view(v@).take(n as int) =~= strings_view(v@));
    r
}

/// Strings joined by `" -> "`.
pub open spec fn arrow_joined(parts: Seq<Seq<char>>) -> Seq<char>
    decreases parts.len(),
{
    if parts.len() == 0 {
        Seq::empty()
    } else if parts.len() == 1 {
        parts[0]
    } else {
        arrow_joined(parts.drop_last()) + " -> "@ + parts.last()
    }
}

/// `prefix` followed by `parts` joined by `" -> "`.
pub fn join_arrows(prefix: &str, parts: &Vec<String>) -> (r: String)
    ensures
        r@ == prefix@ + arrow_joined(strings_view(parts@)),
{
    let ghost views = strings_view(parts@);
    let mut m = String::from_str(prefix);
    let n = parts.len();
    let mut i: usize = 0;
    while i < n
        invariant
            n == parts@.len(),
            i <= n,
            views == strings_view(parts@),
            m@ == prefix@ + arrow_joined(views.take(i as int)),
        decreases n - i,
    {
        assert(views.take((i + 1) as int).drop_last() =~= views.take(i as int));
        if i > 0 {
            m.append(" -> ");
        }
        m.append(parts[i].as_str());
        proof {
            if i == 0 {
                assert(views.take(0) =~= Seq::<Seq<char>>::empty());
                assert(views.take(1) =~= seq![views[0]]);
            }
        }
        assert(m@ =~= prefix@ + arrow_joined(views.take((i + 1) as int)));
        i = i + 1;
    }
    assert(views.take(n as int) =~= views);
    m
}

/// The characters that the bytes `start..end` of `src` decode to.
pub open spec fn text_of(src: Seq<char>, start: int, end: int) -> Seq<char> {
    decode_utf8(encode_utf8(src).subrange(start, end))
}

/// `start..end` is a byte range of `src` that begins and ends on character boundaries.
pub open spec fn char_range(src: Seq<char>, start: int, end: int) -> bool {
    &&& 0 <= start <= end <= encode_utf8(src).len()
    &&& is_char_boundary(encode_utf8(src), start)
    &&& is_char_boundary(encode_utf8(src), end)
}

proof fn lemma_boundary_in_prefix(bytes: Seq<u8>, i: int, j: int)
    requires
        valid_utf8(bytes),
        0 <= i <= j <= bytes.len(),
        is_char_boundary(bytes, i),
        is_char_boundary(bytes, j),
    ensures
        valid_utf8(bytes.subrange(0, j)),
        is_char_boundary(bytes.subrange(0, j), i),
{
    valid_utf8_split(bytes, j);
    let p = bytes.subrange(0, j);
    if i == j {
        is_char_boundary_start_end_of_seq(p);
        assert(p.len() == j);
    } else if i == 0 {
    } else {
        is_char_boundary_iff_not_is_continuation_byte(bytes, i);
        is_char_boundary_iff_not_is_continuation_byte(p, i);
        assert(p[i] == bytes[i]);
    }
}

/// The end of a character range is an empty character range.
pub proof fn lemma_char_range_end(src: Seq<char>, start: int, end: int)
    requires
        char_range(src, start, end),
    ensures
        char_range(src, end, end),
{
}

/// Every character takes at least one byte.
pub proof fn lemma_chars_within_bytes(s: Seq<char>)
    ensures
        s.len() <= encode_utf8(s).len(),
    decreases s.len(),
{
    if s.len() > 0 {
        lemma_chars_within_bytes(s.drop_first());
    }
}

/// The length of `s` in bytes.
pub fn byte_len(s: &str) -> (n: usize)
    ensures
        n == encode_utf8(s@).len(),
{
    s.as_bytes().len()
}

/// The start and the end of a source are character boundaries.
pub proof fn lemma_char_range_ends(src: Seq<char>)
    ensures
        char_range(src, 0, 0),
        char_range(src, encode_utf8(src).len() as int, encode_utf8(src).len() as int),
        char_range(src, 0, encode_utf8(src).len() as int),
{
    encode_utf8_valid_utf8(src);
    is_char_boundary_start_end_of_seq(encode_utf8(src));
}

/// The text of the bytes `start..end` of `src`.
pub fn slice_text(src: &str, start: usize, end: usize) -> (r: &str)
    requires
        char_range(src@, start as int, end as int),
    ensures
        r@ == text_of(src@, start as int, end as int),
{
    proof {
        encode_utf8_valid_utf8(src@);
        lemma_boundary_in_prefix(src.spec_bytes(), start as int, end as int);
    }
    let (left, _right) = src.split_at(end);
    let (_a, mid) = left.split_at(start);
    proof {
        let bytes = src.spec_bytes();
        assert(left.spec_bytes() =~= bytes.subrange(0, end as int));
        assert(mid.spec_bytes() =~= bytes.subrange(start as int, end as int));
        encode_utf8_decode_utf8(mid@);
    }
    mid
}

} // verus!
