use vstd::prelude::*;
use crate::dyn_vec::DynVec;
use vstd::string::StringSliceAdditionalSpecFns;

verus! {

#[derive(Clone, Copy, Debug, PartialEq, Eq, Structural)]
pub enum Alignment {
    Left,
    Right,
    Centered,
}

/// Why a format string was refused.
#[derive(Clone, Copy, Debug, PartialEq, Eq, Structural)]
pub enum PositioningError {
    /// A width runs to the end of the string with no alignment character after it.
    InvalidSequence,
    /// A width does not fit in `usize`.
    InvalidWidth,
    /// This byte stands where `<`, `>` or `=` is expected.
    InvalidCharacter(u8),
}

/// Minimum width and alignment of each column.
pub struct Positioning {
    pub max_width: DynVec<usize>,
    pub align: DynVec<Alignment>,
}

impl Default for Positioning {
    /// Every column left aligned, with no minimum width.
    fn default() -> (r: Positioning)
        ensures
            r.max_width.vec@.len() == 0,
            r.max_width.default == 0,
            r.align.vec@.len() == 0,
            r.align.default == Alignment::Left,
    {
        Positioning { max_width: DynVec::new(0), align: DynVec::new(Alignment::Left) }
    }
}

pub open spec fn is_digit(c: u8) -> bool {
    48 <= c <= 57
}

/// The value of a run of decimal digits; zero for an empty run.
pub open spec fn decimal(d: Seq<u8>) -> nat
    decreases d.len(),
{
    if d.len() == 0 {
        0
    } else {
        decimal(d.drop_last()) * 10 + (d.last() - 48) as nat
    }
}

pub open spec fn align_of(c: u8) -> Option<Alignment> {
    if c == 60 {
        Some(Alignment::Left)
    } else if c == 62 {
        Some(Alignment::Right)
    } else if c == 61 {
        Some(Alignment::Centered)
    } else {
        None
    }
}

/// The (width, alignment) entries of the format `b` from position `i` on, where an entry
/// begins.
pub open spec fn entries_from(b: Seq<u8>, i: int) -> Result<Seq<(nat, Alignment)>, PositioningError>
    decreases b.len() - i, 1int,
{
    if i >= b.len() {
        Ok(seq![])
    } else {
        entries_digits(b, i, i)
    }
}

/// The entries of `b` from position `i`, inside a width that began at `start`.
pub open spec fn entries_digits(b: Seq<u8>, start: int, i: int) -> Result<
    Seq<(nat, Alignment)>,
    PositioningError,
>
    decreases b.len() - i, 0int,
{
    if i >= b.len() || i < start {
        Err(PositioningError::InvalidSequence)
    } else if is_digit(b[i]) {
        entries_digits(b, start, i + 1)
    } else {
        let w = decimal(b.subrange(start, i));
        if w > usize::MAX {
            Err(PositioningError::InvalidWidth)
        } else {
            match align_of(b[i]) {
                None => Err(PositioningError::InvalidCharacter(b[i])),
                Some(a) => match entries_from(b, i + 1) {
                    Ok(rest) => Ok(seq![(w, a)] + rest),
                    Err(e) => Err(e),
                },
            }
        }
    }
}

/// The entries of a whole format string: each is an optional decimal width and one of
/// `<` (left), `>` (right), `=` (centered).
pub open spec fn entries_of(b: Seq<u8>) -> Result<Seq<(nat, Alignment)>, PositioningError> {
    entries_from(b, 0)
}

pub open spec fn prepend(
    acc: Seq<(nat, Alignment)>,
    r: Result<Seq<(nat, Alignment)>, PositioningError>,
) -> Result<Seq<(nat, Alignment)>, PositioningError> {
    match r {
        Ok(rest) => Ok(acc + rest),
        Err(e) => Err(e),
    }
}

/// `p` holds the entries `es`: widths then a trailing zero width, alignments with the last
/// one as the default of later columns.
pub open spec fn holds_entries(p: Positioning, es: Seq<(nat, Alignment)>) -> bool {
    &&& p.max_width.vec@.len() == es.len() + 1
    &&& forall|k: int| 0 <= k < es.len() ==> p.max_width.vec@[k] == (#[trigger] es[k]).0
    &&& p.max_width.vec@[es.len() as int] == 0
    &&& p.max_width.default == 0
    &&& p.align.vec@.len() == es.len()
    &&& forall|k: int| 0 <= k < es.len() ==> p.align.vec@[k] == (#[trigger] es[k]).1
    &&& p.align.default == if es.len() == 0 {
        Alignment::Left
    } else {
        es.last().1
    }
}

proof fn lemma_decimal_prefix(d: Seq<u8>, k: int)
    requires
        0 <= k <= d.len(),
    ensures
        decimal(d.subrange(0, k)) <= decimal(d),
    decreases d.len(),
{
    if k < d.len() {
        lemma_decimal_prefix(d.drop_last(), k);
        assert(d.drop_last().subrange(0, k) =~= d.subrange(0, k));
    } else {
        assert(d.subrange(0, k) =~= d);
    }
}

/// Reads a format string such as `<50>=<`: the second column right aligned with a minimum
/// width of 50, the third centered, the others left aligned.
pub fn parse_positioning(fmt: &str) -> (r: Result<Positioning, PositioningError>)
    ensures
        r is Ok <==> entries_of(fmt.spec_bytes()) is Ok,
        r matches Ok(p) ==> holds_entries(p, entries_of(fmt.spec_bytes())->Ok_0),
        r matches Err(e) ==> entries_of(fmt.spec_bytes()) == Err::<
            Seq<(nat, Alignment)>,
            PositioningError,
        >(e),
{
    let b = fmt.as_bytes();
    let ghost bs = b@;
    let len = b.len();
    let mut align = DynVec::new(Alignment::Left);
    let mut max_width: DynVec<usize> = DynVec::new(0);
    let ghost mut acc: Seq<(nat, Alignment)> = seq![];
    let mut i: usize = 0;
    while i < len
        invariant
            bs == b@,
            bs == fmt.spec_bytes(),
            len == bs.len(),
            i <= len,
            entries_of(bs) == prepend(acc, entries_from(bs, i as int)),
            max_width.vec@.len() == acc.len(),
            forall|k: int| 0 <= k < acc.len() ==> max_width.vec@[k] == (#[trigger] acc[k]).0,
            align.vec@.len() == acc.len(),
            forall|k: int| 0 <= k < acc.len() ==> align.vec@[k] == (#[trigger] acc[k]).1,
            align.default == if acc.len() == 0 {
                Alignment::Left
            } else {
                acc.last().1
            },
        decreases len - i,
    {
        let mut j: usize = i;
        while j < len && 48 <= b[j] && b[j] <= 57
            invariant
                bs == b@,
                len == bs.len(),
                i <= j <= len,
                i < len,
                entries_from(bs, i as int) == entries_digits(bs, i as int, j as int),
                forall|k: int| i <= k < j ==> is_digit(#[trigger] bs[k]),
            decreases len - j,
        {
            j = j + 1;
        }
        if j == len {
            return Err(PositioningError::InvalidSequence);
        }
        let ghost digits = bs.subrange(i as int, j as int);
        let mut w: usize = 0;
        let mut k: usize = i;
        while k < j
            invariant
                bs == b@,
                len == bs.len(),
                i <= k <= j < len,
                digits == bs.subrange(i as int, j as int),
                forall|m: int| i <= m < j ==> is_digit(#[trigger] bs[m]),
                w as nat == decimal(bs.subrange(i as int, k as int)),
                !is_digit(bs[j as int]),
                bs == fmt.spec_bytes(),
                entries_of(bs) == prepend(acc, entries_from(bs, i as int)),
                entries_from(bs, i as int) == entries_digits(bs, i as int, j as int),
            decreases j - k,
        {
            let ghost before = bs.subrange(i as int, k as int);
            assert(bs.subrange(i as int, k + 1).drop_last() =~= before);
            let d = (b[k] - 48) as usize;
            let next = match w.checked_mul(10) {
                Some(t) => t.checked_add(d),
                None => None,
            };
            match next {
                Some(n) => {
                    w = n;
                },
                None => {
                    proof {
                        let run = bs.subrange(i as int, k + 1);
                        assert(run.last() == bs[k as int]);
                        assert(decimal(run) == w * 10 + d);
                        assert(digits.subrange(0, k + 1 - i) =~= run);
                        lemma_decimal_prefix(digits, k + 1 - i);
                        assert(decimal(digits) > usize::MAX);
                        assert(!is_digit(bs[j as int]));
                        assert(entries_digits(bs, i as int, j as int) == Err::<
                            Seq<(nat, Alignment)>,
                            PositioningError,
                        >(PositioningError::InvalidWidth));
                    }
                    return Err(PositioningError::InvalidWidth);
                },
            }
            k = k + 1;
        }
        let c = b[j];
        let a = if c == 60 {
            Alignment::Left
        } else if c == 62 {
            Alignment::Right
        } else if c == 61 {
            Alignment::Centered
        } else {
            return Err(PositioningError::InvalidCharacter(c));
        };
        max_width.push(w);
        align.push(a);
        proof {
            let e = (w as nat, a);
            assert(acc.push(e) + entries_from(bs, j + 1)->Ok_0 =~= acc + (seq![e] + entries_from(
                bs,
                j + 1,
            )->Ok_0));
            acc = acc.push(e);
        }
        i = j + 1;
    }
    max_width.push(0);
    proof {
        assert(acc + seq![] =~= acc);
    }
    Ok(Positioning { max_width, align })
}

} // verus!
