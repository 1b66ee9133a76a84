use vstd::prelude::*;
use crate::dyn_vec::DynVec;
use crate::positioning::{Alignment, Positioning};
use crate::width::{fits, width_of, word_width, WidthMode};
use crate::words::{is_blank, is_indent, words_of, Words};

verus! {

pub open spec fn nat_max(a: nat, b: nat) -> nat {
    if a >= b {
        a
    } else {
        b
    }
}

pub open spec fn spaces(n: nat) -> Seq<char> {
    Seq::new(n, |_i: int| ' ')
}

/// A word of width `k` in a column of width `w` under alignment `a`; `last` when no word
/// follows it on its line, in which case no padding is put after it.
pub open spec fn cell(word: Seq<char>, k: nat, w: nat, a: Alignment, last: bool) -> Seq<char> {
    let pad = (w - k) as nat;
    match a {
        Alignment::Left => if last {
            word
        } else {
            word + spaces(pad)
        },
        Alignment::Right => spaces(pad) + word,
        Alignment::Centered => if last {
            spaces(pad / 2) + word
        } else {
            spaces(pad / 2) + word + spaces((pad - pad / 2) as nat)
        },
    }
}

/// Word `j` of a line as written out, followed by the separator unless it is the last.
pub open spec fn piece(
    words: Seq<Seq<char>>,
    j: int,
    mode: WidthMode,
    widths: spec_fn(int) -> nat,
    aligns: spec_fn(int) -> Alignment,
    sep: Seq<char>,
) -> Seq<char> {
    let last = j + 1 == words.len();
    cell(words[j], width_of(mode, words[j]), widths(j), aligns(j), last) + if last {
        seq![]
    } else {
        sep
    }
}

/// The first `n` words of a line as written out.
pub open spec fn pieces(
    words: Seq<Seq<char>>,
    n: int,
    mode: WidthMode,
    widths: spec_fn(int) -> nat,
    aligns: spec_fn(int) -> Alignment,
    sep: Seq<char>,
) -> Seq<char>
    decreases n,
{
    if n <= 0 {
        seq![]
    } else {
        pieces(words, n - 1, mode, widths, aligns, sep) + piece(
            words,
            n - 1,
            mode,
            widths,
            aligns,
            sep,
        )
    }
}

/// The output line for a line with the given words: the indentation, the words padded to
/// their columns, a newline. A line without words is a bare newline.
pub open spec fn line_out(
    words: Seq<Seq<char>>,
    indent: Seq<char>,
    sep: Seq<char>,
    mode: WidthMode,
    widths: spec_fn(int) -> nat,
    aligns: spec_fn(int) -> Alignment,
) -> Seq<char> {
    if words.len() == 0 {
        seq!['\n']
    } else {
        indent + pieces(words, words.len() as int, mode, widths, aligns, sep) + seq!['\n']
    }
}

pub open spec fn col_widths(p: &Positioning) -> spec_fn(int) -> nat {
    |i: int| p.max_width.spec_get(i) as nat
}

pub open spec fn col_aligns(p: &Positioning) -> spec_fn(int) -> Alignment {
    |i: int| p.align.spec_get(i)
}

/// The widest word in column `i` among the first `n` lines of `table` (zero if none).
pub open spec fn col_max(table: Seq<Seq<Seq<char>>>, n: int, mode: WidthMode, i: int) -> nat
    decreases n,
{
    if n <= 0 {
        0
    } else {
        let row = table[n - 1];
        let x = if 0 <= i < row.len() {
            width_of(mode, row[i])
        } else {
            0
        };
        nat_max(col_max(table, n - 1, mode, i), x)
    }
}

pub open spec fn table_of(lines: Seq<Words>) -> Seq<Seq<Seq<char>>> {
    Seq::new(lines.len(), |n: int| lines[n].texts())
}

/// The number of blanks that `s` starts with, from position `i`.
pub open spec fn blank_run(s: Seq<char>, i: int) -> nat
    decreases s.len() - i,
{
    if 0 <= i < s.len() && is_blank(s[i]) {
        1 + blank_run(s, i + 1)
    } else {
        0
    }
}

/// The leading spaces and tabs of a line.
pub open spec fn indent_of(s: Seq<char>) -> Seq<char> {
    s.take(blank_run(s, 0) as int)
}

pub proof fn lemma_col_max_bounds(table: Seq<Seq<Seq<char>>>, n: int, mode: WidthMode, m: int, i: int)
    requires
        0 <= m < n <= table.len(),
        0 <= i < table[m].len(),
    ensures
        width_of(mode, table[m][i]) <= col_max(table, n, mode, i),
    decreases n,
{
    if m < n - 1 {
        lemma_col_max_bounds(table, n - 1, mode, m, i);
    }
}

fn push_spaces(out: &mut Vec<char>, n: usize)
    ensures
        final(out)@ == old(out)@ + spaces(n as nat),
{
    let mut k: usize = 0;
    while k < n
        invariant
            k <= n,
            out@ == old(out)@ + spaces(k as nat),
        decreases n - k,
    {
        out.push(' ');
        k = k + 1;
        assert(out@ =~= old(out)@ + spaces(k as nat));
    }
}

fn push_range(out: &mut Vec<char>, src: &Vec<char>, start: usize, end: usize)
    requires
        start <= end <= src@.len(),
    ensures
        final(out)@ == old(out)@ + src@.subrange(start as int, end as int),
{
    let mut k: usize = start;
    while k < end
        invariant
            start <= k <= end <= src@.len(),
            out@ == old(out)@ + src@.subrange(start as int, k as int),
        decreases end - k,
    {
        out.push(src[k]);
        k = k + 1;
        assert(out@ =~= old(out)@ + src@.subrange(start as int, k as int));
    }
}

/// The leading spaces and tabs of `line`.
pub fn leading_indent(line: &Vec<char>) -> (r: Vec<char>)
    ensures
        r@ == indent_of(line@),
{
    let mut k: usize = 0;
    while k < line.len() && is_indent(line[k])
        invariant
            k <= line@.len(),
            blank_run(line@, 0) == k + blank_run(line@, k as int),
        decreases line@.len() - k,
    {
        k = k + 1;
    }
    let mut r: Vec<char> = Vec::new();
    push_range(&mut r, line, 0, k);
    assert(r@ =~= indent_of(line@));
    r
}

/// Raises the width of each column to the widest word found there in `lines`.
pub fn measure(lines: &Vec<Words>, mode: WidthMode, widths: &mut DynVec<usize>)
    requires
        forall|n: int| 0 <= n < lines@.len() ==> (#[trigger] lines@[n]).wf() && fits(lines@[n].line@),
    ensures
        final(widths).default == old(widths).default,
        forall|i: int|
            #![trigger final(widths).spec_get(i)]
            final(widths).spec_get(i) as nat == nat_max(
                old(widths).spec_get(i) as nat,
                col_max(table_of(lines@), lines@.len() as int, mode, i),
            ),
{
    let ghost table = table_of(lines@);
    let mut n: usize = 0;
    while n < lines.len()
        invariant
            n <= lines@.len(),
            table == table_of(lines@),
            forall|m: int| 0 <= m < lines@.len() ==> (#[trigger] lines@[m]).wf() && fits(lines@[m].line@),
            widths.default == old(widths).default,
            forall|i: int|
                #![trigger widths.spec_get(i)]
                widths.spec_get(i) as nat == nat_max(
                    old(widths).spec_get(i) as nat,
                    col_max(table, n as int, mode, i),
                ),
        decreases lines@.len() - n,
    {
        let line = &lines[n];
        let count = line.words.len();
        let mut j: usize = 0;
        while j < count
            invariant
                n < lines@.len(),
                j <= count,
                *line == lines@[n as int],
                count == line.words@.len(),
                line.wf(),
                fits(line.line@),
                table == table_of(lines@),
                widths.default == old(widths).default,
                forall|i: int|
                    #![trigger widths.spec_get(i)]
                    widths.spec_get(i) as nat == nat_max(
                        nat_max(old(widths).spec_get(i) as nat, col_max(table, n as int, mode, i)),
                        if 0 <= i < j {
                            width_of(mode, line.word(i))
                        } else {
                            0
                        },
                    ),
            decreases count - j,
        {
            let (s, e) = line.words[j];
            assert(line.words@[j as int].0 < line.words@[j as int].1 <= line.line@.len());
            let x = word_width(mode, &line.line, s, e);
            assert(x as nat == width_of(mode, line.word(j as int)));
            if x > widths.get(j) {
                widths.set(j, x);
            }
            j = j + 1;
        }
        proof {
            assert forall|i: int| #![trigger widths.spec_get(i)]
                widths.spec_get(i) as nat == nat_max(
                    old(widths).spec_get(i) as nat,
                    col_max(table, n + 1, mode, i),
                ) by {
                assert(table[n as int] == line.texts());
            }
        }
        n = n + 1;
    }
}

fn push_cell(
    out: &mut Vec<char>,
    src: &Vec<char>,
    s: usize,
    e: usize,
    k: usize,
    w: usize,
    a: Alignment,
    last: bool,
)
    requires
        s <= e <= src@.len(),
        k <= w,
    ensures
        final(out)@ == old(out)@ + cell(src@.subrange(s as int, e as int), k as nat, w as nat, a, last),
{
    let ghost word = src@.subrange(s as int, e as int);
    let pad = w - k;
    match a {
        Alignment::Left => {
            push_range(out, src, s, e);
            if !last {
                push_spaces(out, pad);
            }
            assert(out@ =~= old(out)@ + cell(word, k as nat, w as nat, a, last));
        },
        Alignment::Right => {
            push_spaces(out, pad);
            push_range(out, src, s, e);
            assert(out@ =~= old(out)@ + cell(word, k as nat, w as nat, a, last));
        },
        Alignment::Centered => {
            push_spaces(out, pad / 2);
            push_range(out, src, s, e);
            if !last {
                push_spaces(out, pad - pad / 2);
            }
            assert(out@ =~= old(out)@ + cell(word, k as nat, w as nat, a, last));
        },
    }
}

/// Writes out one line: the indentation, then each word padded to its column's width
/// according to the column's alignment, separated by `sep`, then a newline.
pub fn render_line(
    line: &Words,
    indent: &Vec<char>,
    sep: &Vec<char>,
    mode: WidthMode,
    pos: &Positioning,
) -> (r: Vec<char>)
    requires
        line.wf(),
        fits(line.line@),
        forall|j: int|
            0 <= j < line.words@.len() ==> width_of(mode, #[trigger] line.word(j))
                <= pos.max_width.spec_get(j),
    ensures
        r@ == line_out(line.texts(), indent@, sep@, mode, col_widths(pos), col_aligns(pos)),
        line.words@.len() == 0 ==> r@ == seq!['\n'],
{
    let ghost texts = line.texts();
    let ghost widths = col_widths(pos);
    let ghost aligns = col_aligns(pos);
    let count = line.words.len();
    let mut out: Vec<char> = Vec::new();
    if count > 0 {
        push_range(&mut out, indent, 0, indent.len());
        assert(indent@.subrange(0, indent@.len() as int) =~= indent@);
    }
    let mut j: usize = 0;
    while j < count
        invariant
            j <= count,
            count == line.words@.len(),
            texts == line.texts(),
            widths == col_widths(pos),
            aligns == col_aligns(pos),
            line.wf(),
            fits(line.line@),
            forall|jj: int|
                0 <= jj < line.words@.len() ==> width_of(mode, #[trigger] line.word(jj))
                    <= pos.max_width.spec_get(jj),
            count > 0 ==> out@ == indent@ + pieces(texts, j as int, mode, widths, aligns, sep@),
            count == 0 ==> out@ == Seq::<char>::empty(),
        decreases count - j,
    {
        let ghost before = out@;
        let (s, e) = line.words[j];
        assert(line.words@[j as int].0 < line.words@[j as int].1 <= line.line@.len());
        let k = word_width(mode, &line.line, s, e);
        assert(line.word(j as int) == texts[j as int]);
        let w = pos.max_width.get(j);
        let last = j + 1 == count;
        push_cell(&mut out, &line.line, s, e, k, w, pos.align.get(j), last);
        if !last {
            push_range(&mut out, sep, 0, sep.len());
            assert(sep@.subrange(0, sep@.len() as int) =~= sep@);
        }
        assert(out@ =~= before + piece(texts, j as int, mode, widths, aligns, sep@));
        assert(indent@ + pieces(texts, j + 1, mode, widths, aligns, sep@) =~= before + piece(
            texts,
            j as int,
            mode,
            widths,
            aligns,
            sep@,
        ));
        j = j + 1;
    }
    out.push('\n');
    proof {
        if count == 0 {
            assert(out@ =~= seq!['\n']);
        }
    }
    out
}

/// A copy of `src`.
fn copy_chars(src: &Vec<char>) -> (r: Vec<char>)
    ensures
        r@ == src@,
{
    let mut r: Vec<char> = Vec::new();
    push_range(&mut r, src, 0, src.len());
    assert(r@ =~= src@);
    r
}

/// The indentation that every output line with words starts with: that of the first line.
pub open spec fn indent_of_lines(lines: Seq<Vec<char>>) -> Seq<char> {
    if lines.len() == 0 {
        seq![]
    } else {
        indent_of(lines[0]@)
    }
}

/// The words of every line.
pub open spec fn words_table(lines: Seq<Vec<char>>, delim: char, until: nat) -> Seq<
    Seq<Seq<char>>,
> {
    Seq::new(lines.len(), |n: int| words_of(lines[n]@, delim, until))
}

/// The final width of column `i`: the configured minimum or the widest word there.
pub open spec fn final_widths(
    lines: Seq<Vec<char>>,
    delim: char,
    until: nat,
    mode: WidthMode,
    p: &Positioning,
) -> spec_fn(int) -> nat {
    |i: int|
        nat_max(
            p.max_width.spec_get(i) as nat,
            col_max(words_table(lines, delim, until), lines.len() as int, mode, i),
        )
}

/// Aligns the words of `lines` into columns. Each line is split into words, every column
/// takes the width of its widest word (or the minimum that `positioning` gives, if larger),
/// and each line is written out with its words padded to those widths.
pub fn format_lines(
    lines: &Vec<Vec<char>>,
    str_delim: char,
    until: usize,
    out_sep: &Vec<char>,
    mode: WidthMode,
    positioning: Positioning,
) -> (r: Vec<Vec<char>>)
    requires
        forall|n: int| 0 <= n < lines@.len() ==> fits(#[trigger] lines@[n]@),
    ensures
        r@.len() == lines@.len(),
        forall|n: int|
            0 <= n < lines@.len() ==> (#[trigger] r@[n])@ == line_out(
                words_of(lines@[n]@, str_delim, until as nat),
                indent_of_lines(lines@),
                out_sep@,
                mode,
                final_widths(lines@, str_delim, until as nat, mode, &positioning),
                col_aligns(&positioning),
            ),
{
    let ghost u = until as nat;
    let ghost table = words_table(lines@, str_delim, u);
    let mut ws: Vec<Words> = Vec::new();
    let mut n: usize = 0;
    while n < lines.len()
        invariant
            n <= lines@.len(),
            ws@.len() == n,
            u == until as nat,
            forall|m: int| 0 <= m < lines@.len() ==> fits(#[trigger] lines@[m]@),
            forall|m: int|
                0 <= m < n ==> (#[trigger] ws@[m]).wf() && ws@[m].line@ == lines@[m]@
                    && ws@[m].texts() == words_of(lines@[m]@, str_delim, u),
        decreases lines@.len() - n,
    {
        let w = Words::new(copy_chars(&lines[n]), str_delim, until);
        ws.push(w);
        n = n + 1;
    }
    assert(table_of(ws@) =~= table);
    let indent = if lines.len() > 0 {
        leading_indent(&lines[0])
    } else {
        Vec::new()
    };
    let mut pos = positioning;
    measure(&ws, mode, &mut pos.max_width);
    let ghost widths = final_widths(lines@, str_delim, u, mode, &positioning);
    assert(col_widths(&pos) =~= widths);
    assert(col_aligns(&pos) =~= col_aligns(&positioning));
    let mut out: Vec<Vec<char>> = Vec::new();
    let mut m: usize = 0;
    while m < ws.len()
        invariant
            m <= ws@.len(),
            ws@.len() == lines@.len(),
            out@.len() == m,
            indent@ == indent_of_lines(lines@),
            table == table_of(ws@),
            col_widths(&pos) == widths,
            col_aligns(&pos) == col_aligns(&positioning),
            forall|i: int|
                #![trigger pos.max_width.spec_get(i)]
                pos.max_width.spec_get(i) as nat == nat_max(
                    positioning.max_width.spec_get(i) as nat,
                    col_max(table, ws@.len() as int, mode, i),
                ),
            forall|k: int|
                0 <= k < ws@.len() ==> (#[trigger] ws@[k]).wf() && ws@[k].line@ == lines@[k]@
                    && ws@[k].texts() == words_of(lines@[k]@, str_delim, u),
            forall|k: int| 0 <= k < lines@.len() ==> fits(#[trigger] lines@[k]@),
            forall|k: int|
                0 <= k < m ==> (#[trigger] out@[k])@ == line_out(
                    words_of(lines@[k]@, str_delim, u),
                    indent_of_lines(lines@),
                    out_sep@,
                    mode,
                    widths,
                    col_aligns(&positioning),
                ),
        decreases ws@.len() - m,
    {
        let line = &ws[m];
        assert(fits(lines@[m as int]@));
        proof {
            assert forall|j: int|
                0 <= j < line.words@.len() implies width_of(mode, #[trigger] line.word(j))
                <= pos.max_width.spec_get(j) by {
                assert(table[m as int][j] == line.word(j));
                lemma_col_max_bounds(table, ws@.len() as int, mode, m as int, j);
            }
        }
        let text = render_line(line, &indent, out_sep, mode, &pos);
        out.push(text);
        m = m + 1;
    }
    out
}

} // verus!
