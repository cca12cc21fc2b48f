use vstd::prelude::*;

verus! {

/// The views of a sequence of strings, as sequences of characters.
pub open spec fn views_of(parts: Seq<String>) -> Seq<Seq<char>> {
    parts.map_values(|p: String| p@)
}

/// The segments of `s` between occurrences of the separator `sep`.
///
/// Splitting an empty sequence gives one empty segment, matching how
/// `str::split` behaves on an empty string; there is always at least
/// one segment, and `n` separators produce `n + 1` segments.
pub open spec fn spec_split(s: Seq<char>, sep: char) -> Seq<Seq<char>>
    decreases s.len(),
{
    if s.len() == 0 {
        seq![Seq::<char>::empty()]
    } else {
        let rest = spec_split(s.drop_first(), sep);
        if s[0] == sep {
            seq![Seq::<char>::empty()] + rest
        } else {
            seq![seq![s[0]] + rest[0]] + rest.drop_first()
        }
    }
}

/// Splitting yields at least one segment.
pub proof fn lemma_split_len(s: Seq<char>, sep: char)
    ensures
        spec_split(s, sep).len() >= 1,
    decreases s.len(),
{
    if s.len() != 0 {
        lemma_split_len(s.drop_first(), sep);
    }
}

/// A sequence free of the separator is a single segment.
pub proof fn lemma_split_no_sep(s: Seq<char>, sep: char)
    requires
        forall|i: int| 0 <= i < s.len() ==> s[i] != sep,
    ensures
        spec_split(s, sep) == seq![s],
    decreases s.len(),
{
    if s.len() == 0 {
        assert(spec_split(s, sep) =~~= seq![s]);
    } else {
        assert(forall|i: int| 0 <= i < s.drop_first().len() ==> s.drop_first()[i] != sep);
        lemma_split_no_sep(s.drop_first(), sep);
        assert(seq![s[0]] + s.drop_first() =~= s);
        assert(spec_split(s, sep) =~~= seq![s]);
    }
}

/// Splitting at the first separator: a separator-free prefix becomes the
/// first segment, and the rest splits on its own.
pub proof fn lemma_split_at_sep(a: Seq<char>, sep: char, b: Seq<char>)
    requires
        forall|i: int| 0 <= i < a.len() ==> a[i] != sep,
    ensures
        spec_split(a + seq![sep] + b, sep) == seq![a] + spec_split(b, sep),
    decreases a.len(),
{
    let s = a + seq![sep] + b;
    if a.len() == 0 {
        assert(s[0] == sep);
        assert(s.drop_first() =~= b);
        assert(spec_split(s, sep) =~~= seq![a] + spec_split(b, sep));
    } else {
        assert(s[0] == a[0]);
        assert(s.drop_first() =~= a.drop_first() + seq![sep] + b);
        assert(forall|i: int| 0 <= i < a.drop_first().len() ==> a.drop_first()[i] != sep);
        lemma_split_at_sep(a.drop_first(), sep, b);
        lemma_split_len(b, sep);
        let rest = spec_split(s.drop_first(), sep);
        assert(rest == seq![a.drop_first()] + spec_split(b, sep));
        assert(rest[0] == a.drop_first());
        assert(seq![s[0]] + rest[0] =~= a);
        assert(rest.drop_first() =~= spec_split(b, sep));
        assert(spec_split(s, sep) =~~= seq![a] + spec_split(b, sep));
    }
}

/// Splits `s` on the separator character, keeping empty segments,
/// as `str::split` does.
pub fn split_str(s: &str, sep: char) -> (parts: Vec<String>)
    ensures
        views_of(parts@) == spec_split(s@, sep),
{
    let n = s.unicode_len();
    let mut parts: Vec<String> = Vec::new();
    let mut seg_start: usize = 0;
    let mut i: usize = 0;
    proof {
        assert(s@.skip(0) =~= s@);
        assert(views_of(parts@) =~~= Seq::<Seq<char>>::empty());
    }
    while i < n
        invariant
            seg_start <= i <= n,
            n == s@.len(),
            forall|k: int| seg_start <= k < i ==> s@[k] != sep,
            spec_split(s@, sep) == views_of(parts@) + spec_split(s@.skip(seg_start as int), sep),
        decreases n - i,
    {
        let c = s.get_char(i);
        if c == sep {
            let piece = s.substring_char(seg_start, i).to_owned();
            proof {
                let pre = s@.subrange(seg_start as int, i as int);
                assert(s@.skip(seg_start as int) =~= pre + seq![sep] + s@.skip(i as int + 1));
                lemma_split_at_sep(pre, sep, s@.skip(i as int + 1));
                assert(views_of(parts@.push(piece)) =~~= views_of(parts@) + seq![pre]);
                assert(spec_split(s@, sep) =~~= views_of(parts@.push(piece)) + spec_split(
                    s@.skip(i as int + 1),
                    sep,
                ));
            }
            parts.push(piece);
            seg_start = i + 1;
        }
        i += 1;
    }
    let piece = s.substring_char(seg_start, n).to_owned();
    proof {
        let tail = s@.skip(seg_start as int);
        assert(tail =~= s@.subrange(seg_start as int, n as int));
        lemma_split_no_sep(tail, sep);
        assert(views_of(parts@.push(piece)) =~~= views_of(parts@) + seq![tail]);
        assert(views_of(parts@.push(piece)) =~~= spec_split(s@, sep));
    }
    parts.push(piece);
    parts
}

/// The segments of `ls` joined with a single `sep` between them.
pub open spec fn spec_join(ls: Seq<Seq<char>>, sep: char) -> Seq<char>
    decreases ls.len(),
{
    if ls.len() == 0 {
        Seq::empty()
    } else if ls.len() == 1 {
        ls[0]
    } else {
        spec_join(ls.drop_last(), sep) + seq![sep] + ls.last()
    }
}

/// Joins the segments `parts[lo..hi]` with a newline between them.
pub fn join_lines(parts: &Vec<String>, lo: usize, hi: usize) -> (out: String)
    requires
        lo <= hi <= parts@.len(),
    ensures
        out@ == spec_join(views_of(parts@).subrange(lo as int, hi as int), '\n'),
{
    let mut out = String::new();
    let mut i: usize = lo;
    proof {
        reveal_strlit("\n");
        assert(views_of(parts@).subrange(lo as int, lo as int) =~~= Seq::<Seq<char>>::empty());
    }
    while i < hi
        invariant
            lo <= i <= hi <= parts@.len(),
            out@ == spec_join(views_of(parts@).subrange(lo as int, i as int), '\n'),
        decreases hi - i,
    {
        proof {
            reveal_strlit("\n");
            assert("\n"@ =~= seq!['\n']);
        }
        if i > lo {
            out.append("\n");
        }
        out.append(parts[i].as_str());
        proof {
            let vs = views_of(parts@);
            let upper = i as int + 1;
            assert(vs.subrange(lo as int, upper).drop_last() =~= vs.subrange(lo as int, i as int));
            assert(vs.subrange(lo as int, upper).last() == parts@[i as int]@);
            if i == lo {
                assert(out@ =~= vs.subrange(lo as int, upper)[0]);
            }
        }
        i += 1;
    }
    out
}

/// A line with a final carriage return not counted as content.
pub open spec fn strip_cr(l: Seq<char>) -> Seq<char> {
    if l.len() > 0 && l.last() == '\r' {
        l.drop_last()
    } else {
        l
    }
}

/// The lines of `s`, as `str::lines` sees them: segments between `'\n'`
/// characters, with a final line ending optional, and with a `'\r'`
/// standing immediately before a `'\n'` not counted as line content.
pub open spec fn spec_lines(s: Seq<char>) -> Seq<Seq<char>> {
    if s.len() == 0 {
        Seq::empty()
    } else {
        let parts = spec_split(s, '\n');
        let kept = if s.last() == '\n' {
            parts.drop_last()
        } else {
            parts
        };
        Seq::new(
            kept.len(),
            |i: int| if i < parts.len() - 1 { strip_cr(kept[i]) } else { kept[i] },
        )
    }
}

/// Splits `s` into its lines, as `str::lines` does.
pub fn lines_of(s: &str) -> (ls: Vec<String>)
    ensures
        views_of(ls@) == spec_lines(s@),
{
    let n = s.unicode_len();
    if n == 0 {
        let ls: Vec<String> = Vec::new();
        proof {
            assert(views_of(ls@) =~~= spec_lines(s@));
        }
        return ls;
    }
    let mut parts = split_str(s, '\n');
    proof {
        lemma_split_len(s@, '\n');
    }
    let ghost all = spec_split(s@, '\n');
    let ends_nl = s.get_char(n - 1) == '\n';
    if ends_nl {
        let _tail = parts.pop();
        proof {
            assert(views_of(parts@) =~~= all.drop_last());
        }
    }
    let ghost kept = views_of(parts@);
    let stop = if ends_nl {
        parts.len()
    } else {
        parts.len() - 1
    };
    assert(stop == all.len() - 1);
    let mut i: usize = 0;
    while i < stop
        invariant
            0 <= i <= stop <= parts@.len(),
            parts@.len() == kept.len(),
            stop == all.len() - 1,
            forall|j: int| 0 <= j < i ==> parts@[j]@ == strip_cr(kept[j]),
            forall|j: int| i <= j < parts@.len() ==> parts@[j]@ == kept[j],
        decreases stop - i,
    {
        let li_len = parts[i].as_str().unicode_len();
        if li_len > 0 && parts[i].as_str().get_char(li_len - 1) == '\r' {
            let stripped = parts[i].as_str().substring_char(0, li_len - 1).to_owned();
            proof {
                assert(stripped@ =~= strip_cr(kept[i as int]));
            }
            parts.set(i, stripped);
        }
        i += 1;
    }
    proof {
        assert(views_of(parts@) =~~= spec_lines(s@));
    }
    parts
}

/// Whether `c` is in the Unicode `White_Space` set, the characters that
/// `str::trim` removes from the edges of a string.
pub open spec fn spec_is_ws(c: char) -> bool {
    ('\u{9}' <= c && c <= '\u{D}') || c == ' ' || c == '\u{85}' || c == '\u{A0}' || c
        == '\u{1680}' || ('\u{2000}' <= c && c <= '\u{200A}') || c == '\u{2028}' || c == '\u{2029}'
        || c == '\u{202F}' || c == '\u{205F}' || c == '\u{3000}'
}

/// Whether `c` is in the Unicode `White_Space` set.
pub fn is_ws(c: char) -> (r: bool)
    ensures
        r == spec_is_ws(c),
{
    ('\u{9}' <= c && c <= '\u{D}') || c == ' ' || c == '\u{85}' || c == '\u{A0}' || c
        == '\u{1680}' || ('\u{2000}' <= c && c <= '\u{200A}') || c == '\u{2028}' || c == '\u{2029}'
        || c == '\u{202F}' || c == '\u{205F}' || c == '\u{3000}'
}

/// `s` without its leading whitespace.
pub open spec fn trim_start_rec(s: Seq<char>) -> Seq<char>
    decreases s.len(),
{
    if s.len() > 0 && spec_is_ws(s[0]) {
        trim_start_rec(s.drop_first())
    } else {
        s
    }
}

/// `s` without its trailing whitespace.
pub open spec fn trim_end_rec(s: Seq<char>) -> Seq<char>
    decreases s.len(),
{
    if s.len() > 0 && spec_is_ws(s.last()) {
        trim_end_rec(s.drop_last())
    } else {
        s
    }
}

/// `s` without leading and trailing whitespace, as `str::trim` leaves it.
pub open spec fn spec_trim(s: Seq<char>) -> Seq<char> {
    trim_end_rec(trim_start_rec(s))
}

/// When the first `lo` characters are whitespace and the character at `lo`
/// is not, trimming the start keeps exactly the suffix from `lo`.
proof fn lemma_trim_start_skip(s: Seq<char>, lo: int)
    requires
        0 <= lo <= s.len(),
        forall|k: int| 0 <= k < lo ==> spec_is_ws(s[k]),
        lo == s.len() || !spec_is_ws(s[lo]),
    ensures
        trim_start_rec(s) == s.skip(lo),
    decreases lo,
{
    if lo == 0 {
        assert(s.skip(0) =~= s);
    } else {
        lemma_trim_start_skip(s.drop_first(), lo - 1);
        assert(s.drop_first().skip(lo - 1) =~= s.skip(lo));
    }
}

/// When every character from `hi` on is whitespace and the character just
/// before `hi` is not, trimming the end keeps exactly the prefix up to `hi`.
proof fn lemma_trim_end_take(s: Seq<char>, hi: int)
    requires
        0 <= hi <= s.len(),
        forall|k: int| hi <= k < s.len() ==> spec_is_ws(s[k]),
        hi == 0 || !spec_is_ws(s[hi - 1]),
    ensures
        trim_end_rec(s) == s.take(hi),
    decreases s.len(),
{
    if hi == s.len() {
        assert(s.take(hi) =~= s);
    } else {
        assert(spec_is_ws(s.last()));
        lemma_trim_end_take(s.drop_last(), hi);
        assert(s.drop_last().take(hi) =~= s.take(hi));
    }
}

/// Trimming the start leaves no leading whitespace.
proof fn lemma_trim_start_head(s: Seq<char>)
    ensures
        trim_start_rec(s).len() == 0 || !spec_is_ws(trim_start_rec(s)[0]),
    decreases s.len(),
{
    if s.len() > 0 && spec_is_ws(s[0]) {
        lemma_trim_start_head(s.drop_first());
    }
}

/// Trimming the end leaves no trailing whitespace.
proof fn lemma_trim_end_last(s: Seq<char>)
    ensures
        trim_end_rec(s).len() == 0 || !spec_is_ws(trim_end_rec(s).last()),
    decreases s.len(),
{
    if s.len() > 0 && spec_is_ws(s.last()) {
        lemma_trim_end_last(s.drop_last());
    }
}

/// Trimming the end of a sequence whose head is not whitespace keeps
/// that head.
proof fn lemma_trim_end_keeps_head(s: Seq<char>)
    requires
        s.len() > 0,
        !spec_is_ws(s[0]),
    ensures
        trim_end_rec(s).len() > 0,
        trim_end_rec(s)[0] == s[0],
    decreases s.len(),
{
    if spec_is_ws(s.last()) {
        lemma_trim_end_keeps_head(s.drop_last());
    }
}

/// Trimming is applied exactly once: re-trimming an already-trimmed
/// sequence changes nothing.
pub proof fn lemma_trim_idempotent(s: Seq<char>)
    ensures
        spec_trim(spec_trim(s)) == spec_trim(s),
{
    let t1 = trim_start_rec(s);
    let t = trim_end_rec(t1);
    lemma_trim_start_head(s);
    lemma_trim_end_last(t1);
    if t1.len() > 0 {
        lemma_trim_end_keeps_head(t1);
    }
    assert(trim_start_rec(t) == t);
    assert(trim_end_rec(t) == t);
}

/// `s` with leading and trailing whitespace removed, as `str::trim`
/// removes it.
pub fn trim_str(s: &str) -> (out: String)
    ensures
        out@ == spec_trim(s@),
{
    let n = s.unicode_len();
    let mut lo: usize = 0;
    while lo < n
        invariant_except_break
            lo <= n,
            n == s@.len(),
            forall|k: int| 0 <= k < lo ==> spec_is_ws(s@[k]),
        ensures
            lo <= n,
            n == s@.len(),
            forall|k: int| 0 <= k < lo ==> spec_is_ws(s@[k]),
            lo == n || !spec_is_ws(s@[lo as int]),
        decreases n - lo,
    {
        if !is_ws(s.get_char(lo)) {
            break ;
        }
        lo += 1;
    }
    proof {
        lemma_trim_start_skip(s@, lo as int);
    }
    if lo == n {
        let out = String::new();
        proof {
            assert(s@.skip(lo as int) =~= Seq::<char>::empty());
        }
        return out;
    }
    let mut hi: usize = n;
    while hi > lo
        invariant_except_break
            lo < n,
            lo <= hi <= n,
            n == s@.len(),
            forall|k: int| hi <= k < n ==> spec_is_ws(s@[k]),
        ensures
            lo <= hi <= n,
            n == s@.len(),
            forall|k: int| hi <= k < n ==> spec_is_ws(s@[k]),
            hi == lo || !spec_is_ws(s@[hi - 1]),
        decreases hi,
    {
        if !is_ws(s.get_char(hi - 1)) {
            break ;
        }
        hi -= 1;
    }
    proof {
        let t1 = s@.skip(lo as int);
        if hi == lo {
            assert(!spec_is_ws(s@[lo as int]) && spec_is_ws(s@[lo as int]));
        }
        lemma_trim_end_take(t1, hi - lo);
        assert(t1.take(hi - lo) =~= s@.subrange(lo as int, hi as int));
    }
    s.substring_char(lo, hi).to_owned()
}

} // verus!
