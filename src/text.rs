use vstd::prelude::*;
use unicode_width::UnicodeWidthStr;
use vstd::string::StringSliceAdditionalSpecFns;

verus! {

/// What `textwrap::fill` makes of a text at a given width.
pub uninterp spec fn wrapped_text(text: Seq<char>, width: usize) -> Seq<char>;

/// What `UnicodeWidthStr::width` gives for the string with these UTF-8 bytes.
pub uninterp spec fn display_width(bytes: Seq<u8>) -> usize;

/// Relies on textwrap::fill: word-wraps `text` to lines of at most `width`
/// columns, joined by '\n'; an empty text stays empty.
#[verifier::external_body]
pub(crate) fn fill(text: &str, width: usize) -> (r: String)
    ensures
        r@ == wrapped_text(text@, width),
        text@.len() == 0 ==> r@.len() == 0,
{
    textwrap::fill(text, width)
}

/// Relies on UnicodeWidthStr::width from unicode-width: the number of
/// terminal columns the string takes.
#[verifier::external_body]
pub(crate) fn str_width(s: &str) -> (r: usize)
    ensures
        r == display_width(s.spec_bytes()),
{
    s.width()
}

/// The part of `s` between two character boundaries.
pub fn slice_bytes(s: &str, start: usize, end: usize) -> (r: &str)
    requires
        start <= end <= s.spec_bytes().len(),
        vstd::utf8::is_char_boundary(s.spec_bytes(), start as int),
        vstd::utf8::is_char_boundary(s.spec_bytes(), end as int),
    ensures
        r.spec_bytes() == s.spec_bytes().subrange(start as int, end as int),
{
    let ghost bytes = s.spec_bytes();
    proof {
        vstd::utf8::encode_utf8_valid_utf8(s@);
    }
    let (_, from_start) = s.split_at(start);
    proof {
        let rest = bytes.subrange(start as int, bytes.len() as int);
        let j = end - start;
        vstd::utf8::valid_utf8_split(bytes, start as int);
        if j == rest.len() {
            vstd::utf8::is_char_boundary_start_end_of_seq(rest);
        } else if j > 0 {
            vstd::utf8::is_char_boundary_iff_is_leading_byte(rest, j);
            vstd::utf8::is_char_boundary_iff_is_leading_byte(bytes, end as int);
            assert(rest[j] == bytes[end as int]);
        }
    }
    let (inner, _) = from_start.split_at(end - start);
    assert(inner.spec_bytes() =~= bytes.subrange(start as int, end as int));
    inner
}

/// The number of lines in a text whose UTF-8 bytes are `b`: none for an empty
/// text, otherwise one more than the number of '\n' bytes.
pub open spec fn line_count(b: Seq<u8>) -> nat {
    if b.len() == 0 {
        0
    } else {
        newline_count(b) + 1
    }
}

pub open spec fn newline_count(b: Seq<u8>) -> nat
    decreases b.len(),
{
    if b.len() == 0 {
        0
    } else {
        newline_count(b.drop_last()) + if b.last() == 10u8 { 1nat } else { 0nat }
    }
}

/// `n`, or `usize::MAX` where `n` is larger.
pub open spec fn clamp_usize(n: nat) -> usize {
    if n > usize::MAX { usize::MAX } else { n as usize }
}

/// Counts the lines of `s`, as `line_count` defines them, saturating at
/// `usize::MAX`.
pub fn count_lines(s: &str) -> (r: usize)
    ensures
        r == clamp_usize(line_count(s.spec_bytes())),
{
    let b = s.as_bytes();
    let mut n: usize = 0;
    let mut i: usize = 0;
    while i < b.len()
        invariant
            i <= b@.len(),
            b@ == s.spec_bytes(),
            n as nat == newline_count(b@.subrange(0, i as int)),
            n <= i,
        decreases b@.len() - i,
    {
        assert(b@.subrange(0, i as int + 1).drop_last() =~= b@.subrange(0, i as int));
        if b[i] == 10u8 {
            n = n + 1;
        }
        i = i + 1;
    }
    assert(b@.subrange(0, b@.len() as int) =~= b@);
    if b.len() == 0 {
        0
    } else if n == usize::MAX {
        n
    } else {
        n + 1
    }
}

/// The number of physical lines `text` takes once wrapped to `width`.
pub open spec fn wrapped_height(text: Seq<char>, width: usize) -> nat {
    line_count(vstd::utf8::encode_utf8(wrapped_text(text, width)))
}

/// Wraps `text` to `width` columns and counts the lines.
pub fn wrap_height(text: &str, width: usize) -> (r: usize)
    ensures
        r == clamp_usize(wrapped_height(text@, width)),
{
    let w = fill(text, width);
    count_lines(w.as_str())
}

} // verus!
