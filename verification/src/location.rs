use crate::text::{lemma_split_len, spec_split, split_str};
use vstd::prelude::*;

verus! {

/// Whether `c` is an ASCII decimal digit.
pub open spec fn spec_is_digit(c: char) -> bool {
    '0' <= c && c <= '9'
}

/// The numeric value of the ASCII digit `c`.
pub open spec fn digit_val(c: char) -> nat
    recommends
        spec_is_digit(c),
{
    ((c as u32) - ('0' as u32)) as nat
}

/// Whether `s` consists of one or more ASCII decimal digits.
pub open spec fn spec_all_digits(s: Seq<char>) -> bool {
    s.len() > 0 && forall|i: int| 0 <= i < s.len() ==> spec_is_digit(s[i])
}

/// The value of the digit string `s`, read in base ten.
pub open spec fn dec_val(s: Seq<char>) -> nat
    decreases s.len(),
{
    if s.len() == 0 {
        0
    } else {
        dec_val(s.drop_last()) * 10 + digit_val(s.last())
    }
}

/// The value of a prefix of a digit string never exceeds the value of
/// the whole string.
proof fn lemma_dec_val_prefix_le(s: Seq<char>, j: int)
    requires
        0 <= j <= s.len(),
    ensures
        dec_val(s.take(j)) <= dec_val(s),
    decreases s.len() - j,
{
    if j < s.len() {
        lemma_dec_val_prefix_le(s, j + 1);
        assert(s.take(j + 1).drop_last() =~= s.take(j));
        assert(s.take(j + 1).last() == s[j]);
    } else {
        assert(s.take(j) =~= s);
    }
}

/// Reads `s` as an unsigned base-ten integer the way the location grammar
/// asks for one: one or more ASCII digits whose value fits in `usize`.
pub fn parse_usize(s: &str) -> (r: Option<usize>)
    ensures
        match r {
            Some(v) => spec_all_digits(s@) && dec_val(s@) <= usize::MAX && v == dec_val(s@),
            None => !spec_all_digits(s@) || dec_val(s@) > usize::MAX,
        },
{
    let n = s.unicode_len();
    if n == 0 {
        return None;
    }
    let mut acc: usize = 0;
    let mut i: usize = 0;
    proof {
        assert(s@.take(0) =~= Seq::<char>::empty());
    }
    while i < n
        invariant
            i <= n,
            n == s@.len(),
            forall|k: int| 0 <= k < i ==> spec_is_digit(s@[k]),
            acc == dec_val(s@.take(i as int)),
        decreases n - i,
    {
        let c = s.get_char(i);
        if !('0' <= c && c <= '9') {
            return None;
        }
        let d: usize = ((c as u32) - ('0' as u32)) as usize;
        proof {
            assert(s@.take(i as int + 1).drop_last() =~= s@.take(i as int));
            assert(s@.take(i as int + 1).last() == s@[i as int]);
        }
        if acc > usize::MAX / 10 || (acc == usize::MAX / 10 && d > usize::MAX % 10) {
            proof {
                lemma_dec_val_prefix_le(s@, i as int + 1);
            }
            return None;
        }
        acc = acc * 10 + d;
        i += 1;
    }
    proof {
        assert(s@.take(n as int) =~= s@);
    }
    Some(acc)
}

/// A parsed location: a file path plus the range of lines to include.
#[derive(Debug, PartialEq, Eq)]
pub struct IncludeLocation {
    /// File path itself.
    pub path: String,
    /// Range of file lines to include.
    pub range: IncludeRange,
}

/// The range part of a location string, in the style of mdBook's
/// "including portions of a file" selectors.
#[derive(Debug, PartialEq, Eq)]
pub enum IncludeRange {
    /// The entire file content as is.
    Full,
    /// A span of 1-based lines, open at either end where a bound is absent:
    /// `from` inclusive, `to` exclusive.
    Range { from: Option<usize>, to: Option<usize> },
    /// The part of the file between anchor begin and end marker lines.
    Anchor { name: String },
}

/// The mathematical shape of an `IncludeRange`.
pub ghost enum RangeView {
    Full,
    Span { from: Option<usize>, to: Option<usize> },
    Anchor { name: Seq<char> },
}

impl View for IncludeRange {
    type V = RangeView;

    open spec fn view(&self) -> RangeView {
        match self {
            IncludeRange::Full => RangeView::Full,
            IncludeRange::Range { from, to } => RangeView::Span { from: *from, to: *to },
            IncludeRange::Anchor { name } => RangeView::Anchor { name: name@ },
        }
    }
}

/// The mathematical shape of an `IncludeLocation`.
pub ghost struct LocView {
    pub path: Seq<char>,
    pub range: RangeView,
}

impl View for IncludeLocation {
    type V = LocView;

    open spec fn view(&self) -> LocView {
        LocView { path: self.path@, range: self.range@ }
    }
}

/// The numeric range component that failed to parse.
#[derive(Debug, Clone, Copy, PartialEq, Eq, Structural)]
pub enum RangeBound {
    From,
    To,
}

/// The failures of location parsing.
#[derive(Debug, Clone, Copy, PartialEq, Eq, Structural)]
pub enum ParseError {
    /// The location string splits into an unsupported number of
    /// colon-separated components.
    InvalidLayout,
    /// A numeric range component is present but is not a valid
    /// non-negative integer.
    InvalidNumber { component: RangeBound },
}

/// Whether the component `p` reads as a line number bound.
pub open spec fn spec_line_number(p: Seq<char>) -> bool {
    spec_all_digits(p) && dec_val(p) <= usize::MAX
}

/// The location grammar: how a raw location string divides into a path
/// and a range, on the colon-separated parts of the string.
///
/// A single trailing component is a line number when it reads as an
/// integer and the line below it still has a representable number;
/// otherwise it is an anchor name.
pub open spec fn spec_parse(s: Seq<char>) -> Result<LocView, ParseError> {
    let parts = spec_split(s, ':');
    if parts.len() == 1 {
        Ok(LocView { path: parts[0], range: RangeView::Full })
    } else if parts.len() == 2 {
        if spec_line_number(parts[1]) && dec_val(parts[1]) + 1 <= usize::MAX {
            Ok(
                LocView {
                    path: parts[0],
                    range: RangeView::Span {
                        from: Some(dec_val(parts[1]) as usize),
                        to: Some((dec_val(parts[1]) + 1) as usize),
                    },
                },
            )
        } else {
            Ok(LocView { path: parts[0], range: RangeView::Anchor { name: parts[1] } })
        }
    } else if parts.len() == 3 {
        if parts[1].len() == 0 {
            if spec_line_number(parts[2]) {
                Ok(
                    LocView {
                        path: parts[0],
                        range: RangeView::Span {
                            from: None,
                            to: Some(dec_val(parts[2]) as usize),
                        },
                    },
                )
            } else {
                Err(ParseError::InvalidNumber { component: RangeBound::To })
            }
        } else if parts[2].len() == 0 {
            if spec_line_number(parts[1]) {
                Ok(
                    LocView {
                        path: parts[0],
                        range: RangeView::Span {
                            from: Some(dec_val(parts[1]) as usize),
                            to: None,
                        },
                    },
                )
            } else {
                Err(ParseError::InvalidNumber { component: RangeBound::From })
            }
        } else if !spec_line_number(parts[1]) {
            Err(ParseError::InvalidNumber { component: RangeBound::From })
        } else if !spec_line_number(parts[2]) {
            Err(ParseError::InvalidNumber { component: RangeBound::To })
        } else {
            Ok(
                LocView {
                    path: parts[0],
                    range: RangeView::Span {
                        from: Some(dec_val(parts[1]) as usize),
                        to: Some(dec_val(parts[2]) as usize),
                    },
                },
            )
        }
    } else {
        Err(ParseError::InvalidLayout)
    }
}

impl IncludeRange {
    /// The range holding the single 1-based line `num`.
    pub fn line(num: usize) -> (r: IncludeRange)
        requires
            num < usize::MAX,
        ensures
            r == (IncludeRange::Range { from: Some(num), to: Some((num + 1) as usize) }),
    {
        IncludeRange::Range { from: Some(num), to: Some(num + 1) }
    }

    /// The range open at the start: everything before line `num`.
    pub fn left(num: usize) -> (r: IncludeRange)
        ensures
            r == (IncludeRange::Range { from: None, to: Some(num) }),
    {
        IncludeRange::Range { from: None, to: Some(num) }
    }

    /// The range open at the end: everything from line `num` on.
    pub fn right(num: usize) -> (r: IncludeRange)
        ensures
            r == (IncludeRange::Range { from: Some(num), to: None }),
    {
        IncludeRange::Range { from: Some(num), to: None }
    }

    /// The closed range of lines `from` (inclusive) to `to` (exclusive).
    pub fn range(from: usize, to: usize) -> (r: IncludeRange)
        ensures
            r == (IncludeRange::Range { from: Some(from), to: Some(to) }),
    {
        IncludeRange::Range { from: Some(from), to: Some(to) }
    }
}

impl IncludeLocation {
    /// Parses a raw location string into a path and a range, on the
    /// colon-separated shape of the string.
    pub fn parse(s: &str) -> (r: Result<IncludeLocation, ParseError>)
        ensures
            match r {
                Ok(loc) => spec_parse(s@) == Ok::<LocView, ParseError>(loc@),
                Err(e) => spec_parse(s@) == Err::<LocView, ParseError>(e),
            },
    {
        let parts = split_str(s, ':');
        proof {
            lemma_split_len(s@, ':');
            assert(parts@.len() == spec_split(s@, ':').len());
            assert(forall|k: int|
                0 <= k < parts@.len() ==> parts@[k]@ == spec_split(s@, ':')[k]);
        }
        if parts.len() == 1 {
            Ok(IncludeLocation { path: parts[0].clone(), range: IncludeRange::Full })
        } else if parts.len() == 2 {
            let range = match parse_usize(parts[1].as_str()) {
                Some(num) => {
                    if num < usize::MAX {
                        IncludeRange::line(num)
                    } else {
                        IncludeRange::Anchor { name: parts[1].clone() }
                    }
                },
                None => IncludeRange::Anchor { name: parts[1].clone() },
            };
            Ok(IncludeLocation { path: parts[0].clone(), range })
        } else if parts.len() == 3 {
            if parts[1].as_str().is_empty() {
                match parse_usize(parts[2].as_str()) {
                    Some(to) => Ok(
                        IncludeLocation { path: parts[0].clone(), range: IncludeRange::left(to) },
                    ),
                    None => Err(ParseError::InvalidNumber { component: RangeBound::To }),
                }
            } else if parts[2].as_str().is_empty() {
                match parse_usize(parts[1].as_str()) {
                    Some(from) => Ok(
                        IncludeLocation {
                            path: parts[0].clone(),
                            range: IncludeRange::right(from),
                        },
                    ),
                    None => Err(ParseError::InvalidNumber { component: RangeBound::From }),
                }
            } else {
                let from = match parse_usize(parts[1].as_str()) {
                    Some(from) => from,
                    None => {
                        return Err(ParseError::InvalidNumber { component: RangeBound::From });
                    },
                };
                let to = match parse_usize(parts[2].as_str()) {
                    Some(to) => to,
                    None => {
                        return Err(ParseError::InvalidNumber { component: RangeBound::To });
                    },
                };
                Ok(IncludeLocation { path: parts[0].clone(), range: IncludeRange::range(from, to) })
            }
        } else {
            Err(ParseError::InvalidLayout)
        }
    }
}

} // verus!
