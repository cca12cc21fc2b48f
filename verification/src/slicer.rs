use crate::location::{IncludeRange, RangeView};
use crate::text::{
    join_lines, lines_of, spec_join, spec_lines, spec_trim, trim_str, views_of,
};
use vstd::prelude::*;

verus! {

/// The failures of content slicing.
#[derive(Debug, Clone, Copy, PartialEq, Eq, Structural)]
pub enum SliceError {
    /// The `to` bound of a closed range lies before the line the range
    /// effectively starts on.
    RangeUnderflow,
    /// No line starts with the begin marker of the requested anchor.
    AnchorNotFound,
    /// A begin marker matched, but no end marker followed it before the
    /// end of the content.
    AnchorUnterminated,
    /// An anchor was requested in a context that supports only plain-text
    /// inclusion, with no marker convention defined.
    AnchorsUnsupported,
}

/// How anchor references are resolved: plain text defines no marker
/// convention, while Markdown delimits a named region with a pair of
/// comment marker lines.
#[derive(Debug, Clone, Copy, PartialEq, Eq, Structural)]
pub enum AnchorStyle {
    Plain,
    Markdown,
}

/// The zero-based line a numeric range starts on: the 1-based `from`
/// bound shifted down, with an absent or zero bound clamped to the
/// first line.
pub open spec fn spec_start(from: Option<usize>) -> nat {
    match from {
        Option::None => 0,
        Option::Some(f) => if f >= 1 {
            (f - 1) as nat
        } else {
            0
        },
    }
}

/// Whether a closed range asks for lines before its own effective start,
/// the condition under which a count of lines to take cannot be formed.
pub open spec fn spec_underflow(from: Option<usize>, to: Option<usize>) -> bool {
    match to {
        Option::Some(t) => t < spec_start(from),
        Option::None => false,
    }
}

/// The lines a numeric range selects from `ls`: everything from the
/// effective start up to the exclusive `to` bound, or to the end when
/// that bound is absent, and nothing past the end of the content.
pub open spec fn spec_selected(
    ls: Seq<Seq<char>>,
    from: Option<usize>,
    to: Option<usize>,
) -> Seq<Seq<char>>
    recommends
        !spec_underflow(from, to),
{
    let lo = if spec_start(from) <= ls.len() {
        spec_start(from) as int
    } else {
        ls.len() as int
    };
    let hi = match to {
        Option::None => ls.len() as int,
        Option::Some(t) => if t <= ls.len() {
            t as int
        } else {
            ls.len() as int
        },
    };
    ls.subrange(
        lo,
        if hi >= lo {
            hi
        } else {
            lo
        },
    )
}

/// The line prefix that begins the anchor region `name`.
pub open spec fn spec_begin_marker(name: Seq<char>) -> Seq<char> {
    "<!-- ANCHOR: "@ + name
}

/// The line prefix that ends the anchor region `name`.
pub open spec fn spec_end_marker(name: Seq<char>) -> Seq<char> {
    "<!-- ANCHOR_END: "@ + name
}

/// The position of the first element of `ls` that starts with `pre`.
pub open spec fn spec_find_prefix(ls: Seq<Seq<char>>, pre: Seq<char>) -> Option<int>
    decreases ls.len(),
{
    if ls.len() == 0 {
        Option::None
    } else if pre.is_prefix_of(ls[0]) {
        Option::Some(0int)
    } else {
        match spec_find_prefix(ls.drop_first(), pre) {
            Option::Some(k) => Option::Some(k + 1),
            Option::None => Option::None,
        }
    }
}

/// When `k` is the first position whose element starts with `pre`, the
/// search finds exactly `k`.
proof fn lemma_find_prefix_some(ls: Seq<Seq<char>>, pre: Seq<char>, k: int)
    requires
        0 <= k < ls.len(),
        pre.is_prefix_of(ls[k]),
        forall|j: int| 0 <= j < k ==> !pre.is_prefix_of(ls[j]),
    ensures
        spec_find_prefix(ls, pre) == Option::Some(k),
    decreases ls.len(),
{
    if k == 0 {
    } else {
        assert(!pre.is_prefix_of(ls[0]));
        assert(forall|j: int| 0 <= j < k - 1 ==> ls.drop_first()[j] == ls[j + 1]);
        lemma_find_prefix_some(ls.drop_first(), pre, k - 1);
    }
}

/// When no element starts with `pre`, the search finds nothing.
proof fn lemma_find_prefix_none(ls: Seq<Seq<char>>, pre: Seq<char>)
    requires
        forall|j: int| 0 <= j < ls.len() ==> !pre.is_prefix_of(ls[j]),
    ensures
        spec_find_prefix(ls, pre) == Option::<int>::None,
    decreases ls.len(),
{
    if ls.len() > 0 {
        assert(forall|j: int| 0 <= j < ls.drop_first().len() ==> ls.drop_first()[j] == ls[j + 1]);
        lemma_find_prefix_none(ls.drop_first(), pre);
    }
}

/// What the search returns, characterized: the position it finds is the
/// first one whose element starts with `pre`, and it finds none exactly
/// when no element does.
proof fn lemma_find_prefix_char(ls: Seq<Seq<char>>, pre: Seq<char>)
    ensures
        match spec_find_prefix(ls, pre) {
            Option::Some(k) => 0 <= k < ls.len() && pre.is_prefix_of(ls[k]) && (forall|j: int|
                0 <= j < k ==> !pre.is_prefix_of(ls[j])),
            Option::None => forall|j: int| 0 <= j < ls.len() ==> !pre.is_prefix_of(ls[j]),
        },
    decreases ls.len(),
{
    if ls.len() > 0 && !pre.is_prefix_of(ls[0]) {
        let rest = ls.drop_first();
        lemma_find_prefix_char(rest, pre);
        match spec_find_prefix(rest, pre) {
            Option::Some(k) => {
                assert(rest[k] == ls[k + 1]);
                assert forall|j: int| 0 <= j < k + 1 implies !pre.is_prefix_of(ls[j]) by {
                    if j > 0 {
                        assert(ls[j] == rest[j - 1]);
                    }
                }
            },
            Option::None => {
                assert forall|j: int| 0 <= j < ls.len() implies !pre.is_prefix_of(ls[j]) by {
                    if j > 0 {
                        assert(ls[j] == rest[j - 1]);
                    }
                }
            },
        }
    }
}

/// The result of resolving the anchor `name` over the lines `ls`: the
/// lines strictly between the first begin-marker line and the first
/// end-marker line after it, joined with newlines; both marker lines are
/// excluded.
pub open spec fn spec_anchor(ls: Seq<Seq<char>>, name: Seq<char>) -> Result<Seq<char>, SliceError> {
    match spec_find_prefix(ls, spec_begin_marker(name)) {
        Option::None => Err(SliceError::AnchorNotFound),
        Option::Some(b) => {
            let rest = ls.skip(b + 1);
            match spec_find_prefix(rest, spec_end_marker(name)) {
                Option::None => Err(SliceError::AnchorUnterminated),
                Option::Some(k) => Ok(spec_join(rest.take(k), '\n')),
            }
        },
    }
}

/// The sliced content for `range`, before the final trim.
pub open spec fn spec_slice_raw(
    content: Seq<char>,
    range: RangeView,
    style: AnchorStyle,
) -> Result<Seq<char>, SliceError> {
    match range {
        RangeView::Full => Ok(content),
        RangeView::Span { from, to } => if spec_underflow(from, to) {
            Err(SliceError::RangeUnderflow)
        } else {
            Ok(spec_join(spec_selected(spec_lines(content), from, to), '\n'))
        },
        RangeView::Anchor { name } => match style {
            AnchorStyle::Plain => Err(SliceError::AnchorsUnsupported),
            AnchorStyle::Markdown => spec_anchor(spec_lines(content), name),
        },
    }
}

/// What processing a file returns: the sliced content for `range`,
/// trimmed of leading and trailing whitespace.
pub open spec fn spec_process(
    content: Seq<char>,
    range: RangeView,
    style: AnchorStyle,
) -> Result<Seq<char>, SliceError> {
    match spec_slice_raw(content, range, style) {
        Ok(s) => Ok(spec_trim(s)),
        Err(e) => Err(e),
    }
}

/// A closed numeric range with `from <= to` never underflows, and it
/// selects the consecutive run of the content's lines that starts at the
/// range's effective zero-based start: `to - start` lines exactly, or
/// everything that remains when the content has fewer than `to` lines.
pub proof fn lemma_range_line_count(content: Seq<char>, from: usize, to: usize)
    requires
        from <= to,
    ensures
        !spec_underflow(Some(from), Some(to)),
        ({
            let ls = spec_lines(content);
            let start = spec_start(Some(from));
            let sel = spec_selected(ls, Some(from), Some(to));
            &&& (to <= ls.len() ==> sel == ls.subrange(start as int, to as int) && sel.len() == to
                - start)
            &&& (to > ls.len() && start <= ls.len() ==> sel == ls.subrange(
                start as int,
                ls.len() as int,
            ) && sel.len() == ls.len() - start)
            &&& (start > ls.len() ==> sel.len() == 0)
            &&& sel.len() <= to - start
        }),
{
    let ls = spec_lines(content);
    let start = spec_start(Some(from));
    let sel = spec_selected(ls, Some(from), Some(to));
    assert(start <= to);
    if to <= ls.len() {
        assert(sel =~= ls.subrange(start as int, to as int));
    } else if start <= ls.len() {
        assert(sel =~= ls.subrange(start as int, ls.len() as int));
    } else {
        assert(sel =~= ls.subrange(ls.len() as int, ls.len() as int));
    }
}

/// A closed numeric range is reported as underflowing exactly when its
/// `to` bound lies before its effective start; every other numeric range
/// yields content, never an error.
pub proof fn lemma_underflow_reported(
    content: Seq<char>,
    from: Option<usize>,
    to: Option<usize>,
    style: AnchorStyle,
)
    ensures
        spec_process(content, RangeView::Span { from, to }, style) == Err::<Seq<char>, SliceError>(
            SliceError::RangeUnderflow,
        ) <==> spec_underflow(from, to),
        !spec_underflow(from, to) ==> spec_process(content, RangeView::Span { from, to }, style)
            is Ok,
{
}

/// An anchor request reports `AnchorNotFound` exactly when no line of the
/// content starts with the anchor's begin marker.
pub proof fn lemma_anchor_not_found_iff(ls: Seq<Seq<char>>, name: Seq<char>)
    ensures
        spec_anchor(ls, name) == Err::<Seq<char>, SliceError>(SliceError::AnchorNotFound) <==> (
        forall|j: int| 0 <= j < ls.len() ==> !spec_begin_marker(name).is_prefix_of(ls[j])),
{
    lemma_find_prefix_char(ls, spec_begin_marker(name));
}

/// When line `b` is the first begin-marker line, the request reports
/// `AnchorUnterminated` exactly when no later line starts with the end
/// marker: the begin marker alone does not prove a valid anchor.
pub proof fn lemma_anchor_unterminated_iff(ls: Seq<Seq<char>>, name: Seq<char>, b: int)
    requires
        0 <= b < ls.len(),
        spec_begin_marker(name).is_prefix_of(ls[b]),
        forall|j: int| 0 <= j < b ==> !spec_begin_marker(name).is_prefix_of(ls[j]),
    ensures
        spec_anchor(ls, name) == Err::<Seq<char>, SliceError>(SliceError::AnchorUnterminated) <==> (
        forall|k: int| b < k < ls.len() ==> !spec_end_marker(name).is_prefix_of(ls[k])),
{
    lemma_find_prefix_some(ls, spec_begin_marker(name), b);
    let rest = ls.skip(b + 1);
    assert(forall|j: int| 0 <= j < rest.len() ==> rest[j] == ls[j + b + 1]);
    lemma_find_prefix_char(rest, spec_end_marker(name));
    match spec_find_prefix(rest, spec_end_marker(name)) {
        Option::Some(k) => {
            assert(spec_end_marker(name).is_prefix_of(ls[k + b + 1]));
        },
        Option::None => {
            assert forall|k: int| b < k < ls.len() implies !spec_end_marker(name).is_prefix_of(
                ls[k],
            ) by {
                assert(ls[k] == rest[k - b - 1]);
            }
        },
    }
}

/// When line `b` is the first begin-marker line and line `e` the first
/// end-marker line after it, the anchor resolves to exactly the lines
/// strictly between them, both marker lines excluded.
pub proof fn lemma_anchor_region(ls: Seq<Seq<char>>, name: Seq<char>, b: int, e: int)
    requires
        0 <= b < e < ls.len(),
        spec_begin_marker(name).is_prefix_of(ls[b]),
        forall|j: int| 0 <= j < b ==> !spec_begin_marker(name).is_prefix_of(ls[j]),
        spec_end_marker(name).is_prefix_of(ls[e]),
        forall|k: int| b < k < e ==> !spec_end_marker(name).is_prefix_of(ls[k]),
    ensures
        spec_anchor(ls, name) == Ok::<Seq<char>, SliceError>(
            spec_join(ls.subrange(b + 1, e), '\n'),
        ),
{
    lemma_find_prefix_some(ls, spec_begin_marker(name), b);
    let rest = ls.skip(b + 1);
    assert(forall|j: int| 0 <= j < rest.len() ==> rest[j] == ls[j + b + 1]);
    lemma_find_prefix_some(rest, spec_end_marker(name), e - (b + 1));
    assert(rest.take(e - (b + 1)) =~~= ls.subrange(b + 1, e));
}

/// Trimming is applied exactly once: whatever range was used, a
/// successful result carries no leading or trailing whitespace, so
/// trimming it again gives it back unchanged.
pub proof fn lemma_process_result_trimmed(content: Seq<char>, range: RangeView, style: AnchorStyle)
    ensures
        spec_process(content, range, style) matches Ok(out) ==> spec_trim(out) == out,
{
    if spec_slice_raw(content, range, style) is Ok {
        let raw = spec_slice_raw(content, range, style)->Ok_0;
        crate::text::lemma_trim_idempotent(raw);
    }
}

/// Whether `l` starts with the prefix `pre`, character for character.
fn starts_with_str(l: &str, pre: &str) -> (r: bool)
    ensures
        r == pre@.is_prefix_of(l@),
{
    let np = pre.unicode_len();
    let nl = l.unicode_len();
    if np > nl {
        return false;
    }
    let mut i: usize = 0;
    while i < np
        invariant
            i <= np,
            np == pre@.len(),
            np <= l@.len(),
            forall|k: int| 0 <= k < i ==> pre@[k] == l@[k],
        decreases np - i,
    {
        if pre.get_char(i) != l.get_char(i) {
            proof {
                if pre@.is_prefix_of(l@) {
                    assert(pre@[i as int] == l@.subrange(0, np as int)[i as int]);
                }
            }
            return false;
        }
        i += 1;
    }
    proof {
        assert(pre@ =~= l@.subrange(0, np as int));
    }
    true
}

/// The begin marker prefix for `name`, as a string.
fn begin_marker(name: &str) -> (m: String)
    ensures
        m@ == spec_begin_marker(name@),
{
    let mut m = "<!-- ANCHOR: ".to_owned();
    m.append(name);
    m
}

/// The end marker prefix for `name`, as a string.
fn end_marker(name: &str) -> (m: String)
    ensures
        m@ == spec_end_marker(name@),
{
    let mut m = "<!-- ANCHOR_END: ".to_owned();
    m.append(name);
    m
}

/// The index of the first line of `ls`, at or after `start`, that begins
/// with the prefix `pre`.
fn find_prefix_from(ls: &Vec<String>, start: usize, pre: &str) -> (r: Option<usize>)
    requires
        start <= ls@.len(),
    ensures
        match r {
            Some(idx) => start <= idx < ls@.len() && spec_find_prefix(
                views_of(ls@).skip(start as int),
                pre@,
            ) == Option::Some(idx - start),
            None => spec_find_prefix(views_of(ls@).skip(start as int), pre@) == Option::<
                int,
            >::None,
        },
{
    let n = ls.len();
    let mut i: usize = start;
    while i < n
        invariant
            start <= i <= n,
            n == ls@.len(),
            forall|j: int| start <= j < i ==> !pre@.is_prefix_of(views_of(ls@)[j]),
        decreases n - i,
    {
        if starts_with_str(ls[i].as_str(), pre) {
            proof {
                let rest = views_of(ls@).skip(start as int);
                assert(forall|j: int| 0 <= j < rest.len() ==> rest[j] == views_of(ls@)[j + start]);
                lemma_find_prefix_some(rest, pre@, i - start);
            }
            return Some(i);
        }
        i += 1;
    }
    proof {
        let rest = views_of(ls@).skip(start as int);
        assert(forall|j: int| 0 <= j < rest.len() ==> rest[j] == views_of(ls@)[j + start]);
        lemma_find_prefix_none(rest, pre@);
    }
    None
}

/// Resolves the anchor `name` over the lines `ls` by the Markdown marker
/// convention: the region between the first begin-marker line and the
/// first end-marker line after it, both excluded.
fn resolve_anchor(ls: &Vec<String>, name: &str) -> (r: Result<String, SliceError>)
    ensures
        match r {
            Ok(out) => spec_anchor(views_of(ls@), name@) == Ok::<Seq<char>, SliceError>(out@),
            Err(e) => spec_anchor(views_of(ls@), name@) == Err::<Seq<char>, SliceError>(e),
        },
{
    let begin = begin_marker(name);
    proof {
        assert(views_of(ls@).skip(0) =~~= views_of(ls@));
    }
    let b = match find_prefix_from(ls, 0, begin.as_str()) {
        Some(b) => b,
        None => {
            return Err(SliceError::AnchorNotFound);
        },
    };
    let end = end_marker(name);
    let n = ls.len();
    assert(b < n);
    match find_prefix_from(ls, b + 1, end.as_str()) {
        Some(e) => {
            let out = join_lines(ls, b + 1, e);
            proof {
                let rest = views_of(ls@).skip(b + 1);
                assert(rest.take(e - (b + 1)) =~~= views_of(ls@).subrange(b as int + 1, e as int));
            }
            Ok(out)
        },
        None => Err(SliceError::AnchorUnterminated),
    }
}

/// Applies `range` to already-loaded file text: the whole content, a
/// numeric span of its lines, or a named anchor region, with the result
/// always trimmed of leading and trailing whitespace.
pub fn process_file(content: &str, range: &IncludeRange, style: AnchorStyle) -> (r: Result<
    String,
    SliceError,
>)
    ensures
        match r {
            Ok(out) => spec_process(content@, range@, style) == Ok::<Seq<char>, SliceError>(out@),
            Err(e) => spec_process(content@, range@, style) == Err::<Seq<char>, SliceError>(e),
        },
{
    match range {
        IncludeRange::Full => Ok(trim_str(content)),
        IncludeRange::Range { from, to } => {
            let start: usize = match from {
                Some(f) => if *f >= 1 {
                    *f - 1
                } else {
                    0
                },
                None => 0,
            };
            if let Some(t) = to {
                if *t < start {
                    return Err(SliceError::RangeUnderflow);
                }
            }
            let ls = lines_of(content);
            let n = ls.len();
            let lo = if start <= n {
                start
            } else {
                n
            };
            let hi = match to {
                Some(t) => if *t <= n {
                    *t
                } else {
                    n
                },
                None => n,
            };
            let joined = join_lines(&ls, lo, hi);
            proof {
                assert(views_of(ls@).subrange(lo as int, hi as int) =~~= spec_selected(
                    spec_lines(content@),
                    *from,
                    *to,
                ));
            }
            Ok(trim_str(joined.as_str()))
        },
        IncludeRange::Anchor { name } => {
            match style {
                AnchorStyle::Plain => Err(SliceError::AnchorsUnsupported),
                AnchorStyle::Markdown => {
                    let ls = lines_of(content);
                    match resolve_anchor(&ls, name.as_str()) {
                        Ok(out) => Ok(trim_str(out.as_str())),
                        Err(e) => Err(e),
                    }
                },
            }
        },
    }
}

} // verus!
