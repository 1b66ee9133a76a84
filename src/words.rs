use vstd::prelude::*;

verus! {

/// Space and tab separate words; a newline does not.
pub open spec fn is_blank(c: char) -> bool {
    c == ' ' || c == '\t'
}

/// Quote state after reading `c` at a position where the previous byte left `esc` and `string`.
pub open spec fn next_string(c: char, delim: char, esc: bool, string: bool) -> bool {
    if !esc && c == delim {
        !string
    } else {
        string
    }
}

/// Escape state after reading `c`: a backslash escapes the next character, unless it is
/// itself escaped.
pub open spec fn next_esc(c: char, esc: bool) -> bool {
    !esc && c == '\\'
}

/// Word spans of `s` from position `i`, which lies between words; `count` words came before.
pub open spec fn spans_gap(s: Seq<char>, delim: char, until: nat, i: int, count: nat) -> Seq<
    (int, int),
>
    decreases s.len() - i, 0int,
{
    if i >= s.len() {
        seq![]
    } else if is_blank(s[i]) {
        spans_gap(s, delim, until, i + 1, count)
    } else if count == until {
        seq![(i, s.len() as int)]
    } else {
        spans_word(
            s,
            delim,
            until,
            i,
            i + 1,
            next_esc(s[i], false),
            next_string(s[i], delim, false, false),
            count,
        )
    }
}

/// Word spans of `s` from position `i`, inside a word that began at `start`.
pub open spec fn spans_word(
    s: Seq<char>,
    delim: char,
    until: nat,
    start: int,
    i: int,
    esc: bool,
    string: bool,
    count: nat,
) -> Seq<(int, int)>
    decreases s.len() - i, 1int,
{
    if i >= s.len() {
        seq![(start, s.len() as int)]
    } else {
        let c = s[i];
        let string2 = next_string(c, delim, esc, string);
        if !string2 && is_blank(c) {
            seq![(start, i)] + spans_gap(s, delim, until, i + 1, count + 1)
        } else {
            spans_word(s, delim, until, start, i + 1, next_esc(c, esc), string2, count)
        }
    }
}

/// The word spans of a line: half-open ranges of positions, in order.
pub open spec fn spans_of(s: Seq<char>, delim: char, until: nat) -> Seq<(int, int)> {
    spans_gap(s, delim, until, 0, 0)
}

/// The text of each word of a line.
pub open spec fn words_of(s: Seq<char>, delim: char, until: nat) -> Seq<Seq<char>> {
    spans_of(s, delim, until).map_values(|p: (int, int)| s.subrange(p.0, p.1))
}

/// Whether `c` is a space or a tab: what indentation and word gaps are made of.
pub fn is_indent(c: char) -> (r: bool)
    ensures
        r == is_blank(c),
{
    c == ' ' || c == '\t'
}

/// A line and the spans of its words.
pub struct Words {
    pub line: Vec<char>,
    pub words: Vec<(usize, usize)>,
}

impl Words {
    /// The spans as integers.
    pub open spec fn spans(&self) -> Seq<(int, int)> {
        self.words@.map_values(|p: (usize, usize)| (p.0 as int, p.1 as int))
    }

    /// The text of word `j`.
    pub open spec fn word(&self, j: int) -> Seq<char> {
        self.line@.subrange(self.words@[j].0 as int, self.words@[j].1 as int)
    }

    /// The text of every word, in order.
    pub open spec fn texts(&self) -> Seq<Seq<char>> {
        Seq::new(self.words@.len(), |j: int| self.word(j))
    }

    /// Every span lies inside the line and is not empty.
    pub open spec fn wf(&self) -> bool {
        &&& self.words@.len() <= self.line@.len()
        &&& forall|j: int|
            0 <= j < self.words@.len() ==> (#[trigger] self.words@[j]).0 < self.words@[j].1 <= self.line@.len()
    }

    /// Splits `line` into words. Outside a region quoted by `str_delim`, a space or a tab
    /// ends a word; a backslash keeps the following character from opening or closing such
    /// a region. Once `until` words have been found, the rest of the line is one last word.
    pub fn new(line: Vec<char>, str_delim: char, until: usize) -> (r: Words)
        ensures
            r.line@ == line@,
            r.spans() == spans_of(line@, str_delim, until as nat),
            r.texts() == words_of(line@, str_delim, until as nat),
            r.wf(),
    {
        let r = Words::split(line, str_delim, until);
        assert(r.texts() =~= words_of(r.line@, str_delim, until as nat));
        r
    }

    /// One pass over the line, in word or between words, following `spans_gap` and `spans_word`.
    fn split(line: Vec<char>, str_delim: char, until: usize) -> (r: Words)
        ensures
            r.line@ == line@,
            r.spans() == spans_of(line@, str_delim, until as nat),
            r.wf(),
    {
        let len = line.len();
        let mut words: Vec<(usize, usize)> = Vec::new();
        let mut i: usize = 0;
        let mut in_word = false;
        let mut start: usize = 0;
        let mut esc = false;
        let mut string = false;
        let ghost s = line@;
        let ghost u = until as nat;
        while i < len
            invariant
                s == line@,
                len == s.len(),
                u == until as nat,
                i <= len,
                in_word ==> start < i,
                in_word ==> words@.len() < until,
                in_word ==> words@.len() <= start,
                !in_word ==> words@.len() <= i,
                words@.len() <= until,
                forall|j: int|
                    0 <= j < words@.len() ==> (#[trigger] words@[j]).0 < words@[j].1 <= (if in_word {
                        start as int
                    } else {
                        i as int
                    }),
                spans_of(s, str_delim, u) == words@.map_values(
                    |p: (usize, usize)| (p.0 as int, p.1 as int),
                ) + if in_word {
                    spans_word(s, str_delim, u, start as int, i as int, esc, string, words@.len())
                } else {
                    spans_gap(s, str_delim, u, i as int, words@.len())
                },
            decreases len - i,
        {
            let c = line[i];
            let ghost prev = words@.map_values(|p: (usize, usize)| (p.0 as int, p.1 as int));
            if in_word {
                if !esc && c == str_delim {
                    string = !string;
                }
                esc = !esc && c == '\\';
                if !string && is_indent(c) {
                    words.push((start, i));
                    in_word = false;
                    proof {
                        assert(words@.map_values(|p: (usize, usize)| (p.0 as int, p.1 as int))
                            =~= prev.push((start as int, i as int)));
                        assert(prev.push((start as int, i as int)) =~= prev + seq![
                            (start as int, i as int),
                        ]);
                    }
                }
                i = i + 1;
            } else if is_indent(c) {
                i = i + 1;
            } else if words.len() == until {
                words.push((i, len));
                proof {
                    assert(words@.map_values(|p: (usize, usize)| (p.0 as int, p.1 as int))
                        =~= prev + seq![(i as int, len as int)]);
                }
                return Words { line, words };
            } else {
                in_word = true;
                start = i;
                esc = c == '\\';
                string = c == str_delim;
                i = i + 1;
            }
        }
        if in_word {
            let ghost prev = words@.map_values(|p: (usize, usize)| (p.0 as int, p.1 as int));
            words.push((start, len));
            proof {
                assert(words@.map_values(|p: (usize, usize)| (p.0 as int, p.1 as int))
                    =~= prev + seq![(start as int, len as int)]);
            }
        } else {
            assert(words@.map_values(|p: (usize, usize)| (p.0 as int, p.1 as int)) + seq![]
                =~= words@.map_values(|p: (usize, usize)| (p.0 as int, p.1 as int)));
        }
        Words { line, words }
    }

    /// The text of each word, in order.
    pub fn iter(&self) -> (r: Vec<Vec<char>>)
        requires
            self.wf(),
        ensures
            r@.len() == self.words@.len(),
            forall|j: int| 0 <= j < r@.len() ==> (#[trigger] r@[j])@ == self.word(j),
    {
        let mut r: Vec<Vec<char>> = Vec::new();
        let mut j: usize = 0;
        while j < self.words.len()
            invariant
                self.wf(),
                j <= self.words@.len(),
                r@.len() == j,
                forall|m: int| 0 <= m < j ==> (#[trigger] r@[m])@ == self.word(m),
            decreases self.words@.len() - j,
        {
            let (s, e) = self.words[j];
            assert(self.words@[j as int].0 < self.words@[j as int].1 <= self.line@.len());
            let mut t: Vec<char> = Vec::new();
            let mut k: usize = s;
            while k < e
                invariant
                    s <= k <= e <= self.line@.len(),
                    t@ == self.line@.subrange(s as int, k as int),
                decreases e - k,
            {
                t.push(self.line[k]);
                k = k + 1;
                assert(t@ =~= self.line@.subrange(s as int, k as int));
            }
            r.push(t);
            j = j + 1;
        }
        r
    }
}

} // verus!
