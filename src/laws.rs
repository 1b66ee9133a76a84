use vstd::prelude::*;
use crate::layout::{
    blank_run, cell, col_aligns, final_widths, indent_of, indent_of_lines, line_out, piece, pieces,
    spaces, words_table,
};
use crate::positioning::Positioning;
use crate::positioning::Alignment;
use crate::width::{width_of, WidthMode};
use crate::words::{is_blank, next_esc, next_string, spans_gap, spans_word, words_of};

verus! {

/// A line without words comes out as a single newline, with no indentation and no
/// separator.
pub proof fn lemma_empty_line_is_newline(
    words: Seq<Seq<char>>,
    indent: Seq<char>,
    sep: Seq<char>,
    mode: WidthMode,
    widths: spec_fn(int) -> nat,
    aligns: spec_fn(int) -> Alignment,
)
    requires
        words.len() == 0,
    ensures
        line_out(words, indent, sep, mode, widths, aligns) == seq!['\n'],
{
}

/// Inside or outside a quoted region, a backslash followed by the delimiter leaves the
/// quote state as it was; two backslashes followed by the delimiter flip it.
pub proof fn lemma_escaped_delimiter(delim: char, string: bool)
    requires
        delim != '\\',
    ensures
        ({
            let e1 = next_esc('\\', false);
            let s1 = next_string('\\', delim, false, string);
            next_string(delim, delim, e1, s1) == string
        }),
        ({
            let e1 = next_esc('\\', false);
            let s1 = next_string('\\', delim, false, string);
            let e2 = next_esc('\\', e1);
            let s2 = next_string('\\', delim, e1, s1);
            next_string(delim, delim, e2, s2) == !string
        }),
{
}

/// A word of width `k` in a column of width `w`, followed by another word: left aligned it
/// gets `w - k` spaces after it; right aligned, `w - k` spaces before it; centered, the
/// lower half of `w - k` before and the upper half after.
pub proof fn lemma_padding(word: Seq<char>, k: nat, w: nat)
    requires
        k <= w,
    ensures
        cell(word, k, w, Alignment::Left, false) == word + spaces((w - k) as nat),
        cell(word, k, w, Alignment::Right, false) == spaces((w - k) as nat) + word,
        cell(word, k, w, Alignment::Centered, false) == spaces(((w - k) / 2) as nat) + word
            + spaces(((w - k + 1) / 2) as nat),
        cell(word, k, w, Alignment::Right, true) == spaces((w - k) as nat) + word,
{
    let pad = (w - k) as nat;
    assert((pad - pad / 2) as nat == ((w - k + 1) / 2) as nat);
}

/// The words of a line written one after another with a single space between them.
pub open spec fn join_words(ws: Seq<Seq<char>>) -> Seq<char>
    decreases ws.len(),
{
    if ws.len() == 0 {
        seq![]
    } else if ws.len() == 1 {
        ws[0]
    } else {
        ws[0] + seq![' '] + join_words(ws.drop_first())
    }
}

/// Words written one after another with `gaps[m]` between word `m` and word `m + 1`.
pub open spec fn join_gapped(ws: Seq<Seq<char>>, gaps: Seq<Seq<char>>) -> Seq<char>
    decreases ws.len(),
{
    if ws.len() == 0 {
        seq![]
    } else if ws.len() == 1 {
        ws[0]
    } else {
        ws[0] + gaps[0] + join_gapped(ws.drop_first(), gaps.drop_first())
    }
}

/// Enough gaps for `n` words, each a non-empty run of spaces and tabs.
pub open spec fn blank_gaps(gaps: Seq<Seq<char>>, n: int) -> bool {
    &&& gaps.len() + 1 >= n
    &&& forall|m: int|
        0 <= m < gaps.len() ==> (#[trigger] gaps[m]).len() >= 1 && forall|x: int|
            0 <= x < gaps[m].len() ==> is_blank(#[trigger] gaps[m][x])
}

pub open spec fn single_spaces(n: nat) -> Seq<Seq<char>> {
    Seq::new(n, |_m: int| seq![' '])
}

pub open spec fn span_texts(s: Seq<char>, sp: Seq<(int, int)>) -> Seq<Seq<char>> {
    sp.map_values(|p: (int, int)| s.subrange(p.0, p.1))
}

proof fn lemma_word_first_span(
    s: Seq<char>,
    delim: char,
    until: nat,
    start: int,
    i: int,
    esc: bool,
    string: bool,
    count: nat,
)
    requires
        start <= i <= s.len(),
    ensures
        ({
            let sp = spans_word(s, delim, until, start, i, esc, string, count);
            sp.len() >= 1 && sp[0].0 == start && i <= sp[0].1 <= s.len()
        }),
    decreases s.len() - i,
{
    if i < s.len() {
        let c = s[i];
        let string2 = next_string(c, delim, esc, string);
        if !(!string2 && is_blank(c)) {
            lemma_word_first_span(s, delim, until, start, i + 1, next_esc(c, esc), string2, count);
        }
    }
}

proof fn lemma_join_front(w: Seq<char>, rest: Seq<Seq<char>>, gaps: Seq<Seq<char>>)
    ensures
        join_gapped(seq![w] + rest, gaps) == if rest.len() == 0 {
            w
        } else {
            w + gaps[0] + join_gapped(rest, gaps.drop_first())
        },
{
    assert((seq![w] + rest).drop_first() =~= rest);
    assert((seq![w] + rest)[0] == w);
}

proof fn lemma_join_single_spaces(ws: Seq<Seq<char>>)
    ensures
        join_words(ws) == join_gapped(ws, single_spaces(ws.len())),
    decreases ws.len(),
{
    if ws.len() > 1 {
        lemma_join_single_spaces(ws.drop_first());
        assert(single_spaces(ws.len()).drop_first() =~= single_spaces(ws.drop_first().len()));
    }
}

/// Blanks between `a` and `b` are passed over between words.
proof fn lemma_skip_blanks(t: Seq<char>, delim: char, until: nat, a: int, b: int, count: nat)
    requires
        0 <= a <= b <= t.len(),
        forall|x: int| a <= x < b ==> is_blank(#[trigger] t[x]),
    ensures
        spans_gap(t, delim, until, a, count) == spans_gap(t, delim, until, b, count),
    decreases b - a,
{
    if a < b {
        lemma_skip_blanks(t, delim, until, a + 1, b, count);
    }
}

proof fn lemma_gap_round_trip(
    s: Seq<char>,
    delim: char,
    until: nat,
    i: int,
    count: nat,
    t: Seq<char>,
    k: int,
    gaps: Seq<Seq<char>>,
)
    requires
        !is_blank(delim),
        0 <= i,
        0 <= k <= t.len(),
        blank_gaps(gaps, span_texts(s, spans_gap(s, delim, until, i, count)).len() as int),
        t.subrange(k, t.len() as int) == join_gapped(
            span_texts(s, spans_gap(s, delim, until, i, count)),
            gaps,
        ),
    ensures
        span_texts(t, spans_gap(t, delim, until, k, count)) == span_texts(
            s,
            spans_gap(s, delim, until, i, count),
        ),
    decreases s.len() - i, 0int,
{
    let ts = span_texts(s, spans_gap(s, delim, until, i, count));
    if i >= s.len() {
        assert(ts =~= seq![]);
        assert(t.subrange(k, t.len() as int).len() == 0);
        assert(span_texts(t, spans_gap(t, delim, until, k, count)) =~= seq![]);
    } else if is_blank(s[i]) {
        lemma_gap_round_trip(s, delim, until, i + 1, count, t, k, gaps);
    } else if count == until {
        let w = s.subrange(i, s.len() as int);
        assert(ts =~= seq![w]);
        assert(t.subrange(k, t.len() as int) == w);
        assert(w.len() > 0);
        assert(t.subrange(k, t.len() as int)[0] == t[k]);
        assert(t[k] == w[0]);
        assert(span_texts(t, spans_gap(t, delim, until, k, count)) =~= seq![
            t.subrange(k, t.len() as int),
        ]);
    } else {
        lemma_word_first_span(
            s,
            delim,
            until,
            i,
            i + 1,
            next_esc(s[i], false),
            next_string(s[i], delim, false, false),
            count,
        );
        let sp = spans_word(
            s,
            delim,
            until,
            i,
            i + 1,
            next_esc(s[i], false),
            next_string(s[i], delim, false, false),
            count,
        );
        let w0 = s.subrange(sp[0].0, sp[0].1);
        assert(ts[0] == w0);
        lemma_join_front(w0, ts.drop_first(), gaps);
        assert(seq![w0] + ts.drop_first() =~= ts);
        let tail = t.subrange(k, t.len() as int);
        assert(w0.len() >= 1);
        if ts.drop_first().len() == 0 {
            assert(tail == w0);
        } else {
            let more = gaps[0] + join_gapped(ts.drop_first(), gaps.drop_first());
            assert(tail == w0 + more);
            assert((w0 + more)[0] == w0[0]);
        }
        assert(tail.len() >= 1);
        assert(tail[0] == w0[0]);
        assert(t[k] == tail[0]);
        assert(w0[0] == s[i]);
        lemma_word_round_trip(
            s,
            delim,
            until,
            i,
            i + 1,
            next_esc(s[i], false),
            next_string(s[i], delim, false, false),
            count,
            t,
            k,
            gaps,
        );
    }
}

proof fn lemma_word_round_trip(
    s: Seq<char>,
    delim: char,
    until: nat,
    start: int,
    j: int,
    esc: bool,
    string: bool,
    count: nat,
    t: Seq<char>,
    k0: int,
    gaps: Seq<Seq<char>>,
)
    requires
        !is_blank(delim),
        0 <= start < j <= s.len(),
        0 <= k0,
        k0 + (j - start) <= t.len(),
        blank_gaps(
            gaps,
            span_texts(s, spans_word(s, delim, until, start, j, esc, string, count)).len() as int,
        ),
        t.subrange(k0, t.len() as int) == join_gapped(
            span_texts(s, spans_word(s, delim, until, start, j, esc, string, count)),
            gaps,
        ),
    ensures
        span_texts(t, spans_word(t, delim, until, k0, k0 + (j - start), esc, string, count))
            == span_texts(s, spans_word(s, delim, until, start, j, esc, string, count)),
    decreases s.len() - j, 1int,
{
    let jt = k0 + (j - start);
    let sp = spans_word(s, delim, until, start, j, esc, string, count);
    let ts = span_texts(s, sp);
    let tail = t.subrange(k0, t.len() as int);
    if j >= s.len() {
        let w = s.subrange(start, s.len() as int);
        assert(ts =~= seq![w]);
        assert(tail == w);
        assert(jt == t.len());
        assert(span_texts(t, spans_word(t, delim, until, k0, jt, esc, string, count)) =~= seq![
            t.subrange(k0, t.len() as int),
        ]);
    } else {
        let c = s[j];
        let string2 = next_string(c, delim, esc, string);
        if !string2 && is_blank(c) {
            let w = s.subrange(start, j);
            let rest = span_texts(s, spans_gap(s, delim, until, j + 1, count + 1));
            assert(ts =~= seq![w] + rest);
            lemma_join_front(w, rest, gaps);
            if rest.len() == 0 {
                assert(tail == w);
                assert(jt == t.len());
                assert(span_texts(t, spans_word(t, delim, until, k0, jt, esc, string, count))
                    =~= seq![t.subrange(k0, jt)]);
                assert(t.subrange(k0, jt) =~= tail);
            } else {
                let g = gaps[0];
                let jn = jt + g.len();
                assert(tail == w + g + join_gapped(rest, gaps.drop_first()));
                assert(g.len() >= 1 && is_blank(g[0]));
                assert(t[jt] == tail[j - start]);
                assert(tail[j - start] == g[0]);
                assert(string == false);
                assert forall|x: int| jt + 1 <= x < jn implies is_blank(#[trigger] t[x]) by {
                    assert(t[x] == tail[x - k0]);
                    assert(tail[x - k0] == g[x - jt]);
                }
                assert(t.subrange(jn, t.len() as int) =~= tail.subrange(
                    jn - k0,
                    tail.len() as int,
                ));
                assert(tail.subrange(jn - k0, tail.len() as int) =~= join_gapped(
                    rest,
                    gaps.drop_first(),
                ));
                lemma_skip_blanks(t, delim, until, jt + 1, jn, count + 1);
                assert(blank_gaps(gaps.drop_first(), rest.len() as int)) by {
                    assert forall|m: int| 0 <= m < gaps.drop_first().len() implies (
                    #[trigger] gaps.drop_first()[m]).len() >= 1 && forall|x: int|
                        0 <= x < gaps.drop_first()[m].len() ==> is_blank(
                            #[trigger] gaps.drop_first()[m][x],
                        ) by {
                        assert(gaps.drop_first()[m] == gaps[m + 1]);
                    }
                }
                lemma_gap_round_trip(s, delim, until, j + 1, count + 1, t, jn, gaps.drop_first());
                let tsp = spans_gap(t, delim, until, jt + 1, count + 1);
                assert(spans_word(t, delim, until, k0, jt, esc, string, count) == seq![(k0, jt)]
                    + tsp);
                assert(t.subrange(k0, jt) =~= w);
                assert(span_texts(t, seq![(k0, jt)] + tsp) =~= seq![t.subrange(k0, jt)]
                    + span_texts(t, tsp));
            }
        } else {
            lemma_word_first_span(s, delim, until, start, j + 1, next_esc(c, esc), string2, count);
            let w0 = s.subrange(sp[0].0, sp[0].1);
            assert(ts[0] == w0);
            lemma_join_front(w0, ts.drop_first(), gaps);
            assert(seq![w0] + ts.drop_first() =~= ts);
            assert(tail.subrange(0, w0.len() as int) =~= w0);
            assert(t[jt] == tail[j - start]);
            assert(w0[j - start] == c);
            lemma_word_round_trip(
                s,
                delim,
                until,
                start,
                j + 1,
                next_esc(c, esc),
                string2,
                count,
                t,
                k0,
                gaps,
            );
        }
    }
}

/// Joining the words of a line with single spaces and splitting the result again gives
/// back the same words, whenever the quote delimiter is neither a space nor a tab.
pub proof fn lemma_rejoin_round_trip(s: Seq<char>, delim: char, until: nat)
    requires
        !is_blank(delim),
    ensures
        words_of(join_words(words_of(s, delim, until)), delim, until) == words_of(s, delim, until),
{
    let ws = words_of(s, delim, until);
    let t = join_words(ws);
    assert(t.subrange(0, t.len() as int) =~= t);
    lemma_join_single_spaces(ws);
    lemma_gap_round_trip(s, delim, until, 0, 0, t, 0, single_spaces(ws.len()));
}

proof fn lemma_join_back(ws: Seq<Seq<char>>, gaps: Seq<Seq<char>>, w: Seq<char>)
    requires
        ws.len() >= 1,
        gaps.len() >= ws.len(),
    ensures
        join_gapped(ws.push(w), gaps) == join_gapped(ws, gaps) + gaps[ws.len() - 1] + w,
    decreases ws.len(),
{
    if ws.len() == 1 {
        assert(ws.push(w).drop_first() =~= seq![w]);
        assert(join_gapped(seq![w], gaps.drop_first()) == w);
    } else {
        lemma_join_back(ws.drop_first(), gaps.drop_first(), w);
        assert(ws.push(w).drop_first() =~= ws.drop_first().push(w));
        assert(join_gapped(ws.push(w), gaps) =~= ws[0] + gaps[0] + (join_gapped(
            ws.drop_first(),
            gaps.drop_first(),
        ) + gaps.drop_first()[ws.len() - 2] + w));
    }
}

/// The gaps that left alignment with a single-space separator puts after each word.
pub open spec fn left_gaps(ws: Seq<Seq<char>>, mode: WidthMode, widths: spec_fn(int) -> nat) -> Seq<
    Seq<char>,
> {
    Seq::new(ws.len(), |j: int| spaces((widths(j) - width_of(mode, ws[j])) as nat) + seq![' '])
}

proof fn lemma_left_pieces(
    ws: Seq<Seq<char>>,
    n: int,
    mode: WidthMode,
    widths: spec_fn(int) -> nat,
    aligns: spec_fn(int) -> Alignment,
)
    requires
        1 <= n <= ws.len(),
        forall|i: int| #[trigger] aligns(i) == Alignment::Left,
    ensures
        pieces(ws, n, mode, widths, aligns, seq![' ']) == join_gapped(
            ws.take(n),
            left_gaps(ws, mode, widths),
        ) + if n < ws.len() {
            left_gaps(ws, mode, widths)[n - 1]
        } else {
            seq![]
        },
    decreases n,
{
    let gaps = left_gaps(ws, mode, widths);
    let pc = piece(ws, n - 1, mode, widths, aligns, seq![' ']);
    if n < ws.len() {
        assert(pc =~= ws[n - 1] + gaps[n - 1]);
    } else {
        assert(pc =~= ws[n - 1]);
    }
    if n == 1 {
        assert(ws.take(1) =~= seq![ws[0]]);
        assert(pieces(ws, 0, mode, widths, aligns, seq![' ']) == Seq::<char>::empty());
        assert(pieces(ws, 1, mode, widths, aligns, seq![' ']) =~= pc);
    } else {
        lemma_left_pieces(ws, n - 1, mode, widths, aligns);
        lemma_join_back(ws.take(n - 1), gaps, ws[n - 1]);
        assert(ws.take(n - 1).push(ws[n - 1]) =~= ws.take(n));
        if n < ws.len() {
            assert(pieces(ws, n, mode, widths, aligns, seq![' ']) =~= join_gapped(ws.take(n), gaps)
                + gaps[n - 1]);
        } else {
            assert(pieces(ws, n, mode, widths, aligns, seq![' ']) =~= join_gapped(
                ws.take(n),
                gaps,
            ));
        }
    }
}

proof fn lemma_gap_first(s: Seq<char>, delim: char, until: nat, i: int, count: nat)
    requires
        0 <= i,
        spans_gap(s, delim, until, i, count).len() > 0,
    ensures
        ({
            let p = spans_gap(s, delim, until, i, count)[0];
            i <= p.0 < p.1 <= s.len() && !is_blank(s[p.0])
        }),
    decreases s.len() - i,
{
    if i < s.len() {
        if is_blank(s[i]) {
            lemma_gap_first(s, delim, until, i + 1, count);
        } else if count != until {
            lemma_word_first_span(
                s,
                delim,
                until,
                i,
                i + 1,
                next_esc(s[i], false),
                next_string(s[i], delim, false, false),
                count,
            );
        }
    }
}

proof fn lemma_blank_run_bounds(s: Seq<char>, i: int)
    requires
        0 <= i,
    ensures
        i + blank_run(s, i) <= s.len() || blank_run(s, i) == 0,
        forall|x: int| i <= x < i + blank_run(s, i) ==> is_blank(#[trigger] s[x]),
    decreases s.len() - i,
{
    if 0 <= i < s.len() && is_blank(s[i]) {
        lemma_blank_run_bounds(s, i + 1);
    }
}

proof fn lemma_blank_run_exact(s: Seq<char>, m: int, i: int)
    requires
        0 <= i <= m <= s.len(),
        forall|x: int| 0 <= x < m ==> is_blank(#[trigger] s[x]),
        m == s.len() || !is_blank(s[m]),
    ensures
        blank_run(s, i) == m - i,
    decreases m - i,
{
    if i < m {
        lemma_blank_run_exact(s, m, i + 1);
    }
}

/// The output line without its newline splits into the words of the input line.
proof fn lemma_rerun_words(
    s: Seq<char>,
    delim: char,
    until: nat,
    indent: Seq<char>,
    mode: WidthMode,
    widths: spec_fn(int) -> nat,
    aligns: spec_fn(int) -> Alignment,
)
    requires
        !is_blank(delim),
        forall|i: int| #[trigger] aligns(i) == Alignment::Left,
        forall|x: int| 0 <= x < indent.len() ==> is_blank(#[trigger] indent[x]),
    ensures
        words_of(
            line_out(words_of(s, delim, until), indent, seq![' '], mode, widths, aligns).drop_last(),
            delim,
            until,
        ) == words_of(s, delim, until),
{
    let ws = words_of(s, delim, until);
    let t = line_out(ws, indent, seq![' '], mode, widths, aligns).drop_last();
    if ws.len() == 0 {
        assert(t =~= seq![]);
        assert(words_of(t, delim, until) =~= ws);
    } else {
        let gaps = left_gaps(ws, mode, widths);
        lemma_left_pieces(ws, ws.len() as int, mode, widths, aligns);
        assert(ws.take(ws.len() as int) =~= ws);
        let body = join_gapped(ws, gaps);
        assert(t =~= indent + body);
        let k = indent.len() as int;
        assert(t.subrange(k, t.len() as int) =~= body);
        assert forall|x: int| 0 <= x < k implies is_blank(#[trigger] t[x]) by {
            assert(t[x] == indent[x]);
        }
        lemma_skip_blanks(t, delim, until, 0, k, 0);
        assert(blank_gaps(gaps, ws.len() as int)) by {
            assert forall|m: int| 0 <= m < gaps.len() implies (#[trigger] gaps[m]).len() >= 1
                && forall|x: int| 0 <= x < gaps[m].len() ==> is_blank(#[trigger] gaps[m][x]) by {
                let g = gaps[m];
                assert forall|x: int| 0 <= x < g.len() implies is_blank(#[trigger] g[x]) by {
                    let sp = spaces((widths(m) - width_of(mode, ws[m])) as nat);
                    if x < sp.len() {
                        assert(g[x] == sp[x]);
                    } else {
                        assert(g[x] == ' ');
                    }
                }
            }
        }
        lemma_gap_round_trip(s, delim, until, 0, 0, t, k, gaps);
    }
}

/// Running the formatter again, with the same settings, on its own output (each line
/// without its newline) gives the same output, when every column is left aligned, words
/// are separated by one space and the quote delimiter is neither a space nor a tab. The
/// first line must have words, or no indentation: otherwise its indentation is not in the
/// output to be found again.
pub proof fn lemma_reformat_is_stable(
    lines: Seq<Vec<char>>,
    again: Seq<Vec<char>>,
    delim: char,
    until: nat,
    mode: WidthMode,
    p: Positioning,
)
    requires
        !is_blank(delim),
        forall|i: int| #[trigger] p.align.spec_get(i) == Alignment::Left,
        lines.len() > 0 ==> words_of(lines[0]@, delim, until).len() > 0 || indent_of(
            lines[0]@,
        ).len() == 0,
        again.len() == lines.len(),
        forall|n: int|
            0 <= n < lines.len() ==> (#[trigger] again[n])@ == line_out(
                words_of(lines[n]@, delim, until),
                indent_of_lines(lines),
                seq![' '],
                mode,
                final_widths(lines, delim, until, mode, &p),
                col_aligns(&p),
            ).drop_last(),
    ensures
        forall|n: int|
            0 <= n < lines.len() ==> line_out(
                words_of((#[trigger] again[n])@, delim, until),
                indent_of_lines(again),
                seq![' '],
                mode,
                final_widths(again, delim, until, mode, &p),
                col_aligns(&p),
            ) == line_out(
                words_of(lines[n]@, delim, until),
                indent_of_lines(lines),
                seq![' '],
                mode,
                final_widths(lines, delim, until, mode, &p),
                col_aligns(&p),
            ),
{
    let indent = indent_of_lines(lines);
    let widths = final_widths(lines, delim, until, mode, &p);
    let aligns = col_aligns(&p);
    if lines.len() > 0 {
        lemma_blank_run_bounds(lines[0]@, 0);
    }
    assert forall|x: int| 0 <= x < indent.len() implies is_blank(#[trigger] indent[x]) by {
        assert(indent[x] == lines[0]@[x]);
    }
    assert forall|n: int| 0 <= n < lines.len() implies words_of(
        (#[trigger] again[n])@,
        delim,
        until,
    ) == words_of(lines[n]@, delim, until) by {
        lemma_rerun_words(lines[n]@, delim, until, indent, mode, widths, aligns);
    }
    assert(words_table(again, delim, until) =~= words_table(lines, delim, until));
    assert(final_widths(again, delim, until, mode, &p) =~= widths);
    if lines.len() > 0 {
        let s0 = lines[0]@;
        let ws = words_of(s0, delim, until);
        let a0 = again[0]@;
        if ws.len() > 0 {
            let gaps = left_gaps(ws, mode, widths);
            lemma_left_pieces(ws, ws.len() as int, mode, widths, aligns);
            assert(ws.take(ws.len() as int) =~= ws);
            let body = join_gapped(ws, gaps);
            assert(a0 =~= indent + body);
            lemma_gap_first(s0, delim, until, 0, 0);
            let sp = crate::words::spans_of(s0, delim, until)[0];
            assert(ws[0] == s0.subrange(sp.0, sp.1));
            assert(ws[0].len() >= 1 && !is_blank(ws[0][0]));
            lemma_join_front(ws[0], ws.drop_first(), gaps);
            assert(seq![ws[0]] + ws.drop_first() =~= ws);
            if ws.len() == 1 {
                assert(body == ws[0]);
            } else {
                assert(body == ws[0] + (gaps[0] + join_gapped(ws.drop_first(), gaps.drop_first())));
            }
            assert(body[0] == ws[0][0]);
            assert(a0[indent.len() as int] == body[0]);
            assert forall|x: int| 0 <= x < indent.len() implies is_blank(#[trigger] a0[x]) by {
                assert(a0[x] == indent[x]);
            }
            lemma_blank_run_exact(a0, indent.len() as int, 0);
            assert(indent_of(a0) =~= indent);
        } else {
            assert(a0 =~= seq![]);
            assert(indent_of(a0) =~= indent);
        }
        assert(indent_of_lines(again) == indent);
    }
}

} // verus!
