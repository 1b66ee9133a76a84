use vstd::prelude::*;
use unicode_width::UnicodeWidthStr;

verus! {

/// How many columns a word takes up.
#[derive(Clone, Copy, Debug, PartialEq, Eq, Structural)]
pub enum WidthMode {
    /// The length of its UTF-8 encoding.
    Bytes,
    /// Its display width on a terminal, wide characters counting twice.
    Unicode,
}

/// The display width of a text, as the unicode-width crate measures it.
pub uninterp spec fn display_width_of(s: Seq<char>) -> nat;

/// Relies on `UnicodeWidthStr::width` of unicode-width: the width of a `str`, which depends
/// on its characters alone and is zero for the empty string.
#[verifier::external_body]
fn display_width(line: &Vec<char>, start: usize, end: usize) -> (r: usize)
    requires
        start <= end <= line@.len(),
    ensures
        r as nat == display_width_of(line@.subrange(start as int, end as int)),
        start == end ==> r == 0,
{
    let s: String = line[start..end].iter().collect();
    s.as_str().width()
}

/// The number of bytes that encode `c` in UTF-8.
pub open spec fn utf8_len(c: char) -> nat {
    if (c as u32) < 0x80 {
        1
    } else if (c as u32) < 0x800 {
        2
    } else if (c as u32) < 0x10000 {
        3
    } else {
        4
    }
}

/// The length of the UTF-8 encoding of `s`.
pub open spec fn byte_len(s: Seq<char>) -> nat
    decreases s.len(),
{
    if s.len() == 0 {
        0
    } else {
        byte_len(s.drop_last()) + utf8_len(s.last())
    }
}

pub open spec fn width_of(mode: WidthMode, s: Seq<char>) -> nat {
    match mode {
        WidthMode::Bytes => byte_len(s),
        WidthMode::Unicode => display_width_of(s),
    }
}

/// A line short enough that four bytes per character fit in `usize`, as any line held in
/// memory is.
pub open spec fn fits(s: Seq<char>) -> bool {
    s.len() <= usize::MAX / 4
}

/// The width of `line[start..end]` under `mode`.
pub fn word_width(mode: WidthMode, line: &Vec<char>, start: usize, end: usize) -> (r: usize)
    requires
        start <= end <= line@.len(),
        fits(line@),
    ensures
        r as nat == width_of(mode, line@.subrange(start as int, end as int)),
{
    match mode {
        WidthMode::Unicode => display_width(line, start, end),
        WidthMode::Bytes => {
            let mut n: usize = 0;
            let mut k: usize = start;
            while k < end
                invariant
                    start <= k <= end <= line@.len(),
                    line@.len() <= usize::MAX / 4,
                    n as nat == byte_len(line@.subrange(start as int, k as int)),
                    n <= 4 * (k - start),
                decreases end - k,
            {
                let c = line[k];
                let u = c as u32;
                let b: usize = if u < 0x80 {
                    1
                } else if u < 0x800 {
                    2
                } else if u < 0x10000 {
                    3
                } else {
                    4
                };
                proof {
                    let t = line@.subrange(start as int, k + 1);
                    assert(t.drop_last() =~= line@.subrange(start as int, k as int));
                    assert(t.last() == c);
                }
                n = n + b;
                k = k + 1;
            }
            n
        },
    }
}

} // verus!
