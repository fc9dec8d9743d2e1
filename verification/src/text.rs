//! Character-level views of text: the characters of a `&str`, and the parts of a
//! character sequence around a separator.

use vstd::prelude::*;

verus! {

broadcast use vstd::string::group_string_axioms;

/// The characters of `s`, in order.
pub fn chars_of(s: &str) -> (v: Vec<char>)
    ensures
        v@ == s@,
{
    let mut v: Vec<char> = Vec::new();
    for c in it: s.chars()
        invariant
            it.seq() == s@,
            v@ == s@.take(it.index()),
    {
        assert(s@.take(it.index() + 1) =~= v@.push(c));
        v.push(c);
    }
    assert(v@ =~= s@);
    v
}

/// Unicode `White_Space`, as `char::is_whitespace` defines it.
pub open spec fn spec_is_whitespace(c: char) -> bool {
    ||| '\t' <= c <= '\r'
    ||| c == ' '
    ||| c == '\u{85}'
    ||| c == '\u{A0}'
    ||| c == '\u{1680}'
    ||| '\u{2000}' <= c <= '\u{200A}'
    ||| c == '\u{2028}'
    ||| c == '\u{2029}'
    ||| c == '\u{202F}'
    ||| c == '\u{205F}'
    ||| c == '\u{3000}'
}

/// Whether `c` is Unicode white space.
pub fn is_whitespace(c: char) -> (b: bool)
    ensures
        b == spec_is_whitespace(c),
{
    ('\t' <= c && c <= '\r') || c == ' ' || c == '\u{85}' || c == '\u{A0}' || c == '\u{1680}' || (
    '\u{2000}' <= c && c <= '\u{200A}') || c == '\u{2028}' || c == '\u{2029}' || c == '\u{202F}'
        || c == '\u{205F}' || c == '\u{3000}'
}

/// `s` without its leading white space.
pub open spec fn trim_start(s: Seq<char>) -> Seq<char>
    decreases s.len(),
{
    if s.len() > 0 && spec_is_whitespace(s[0]) {
        trim_start(s.drop_first())
    } else {
        s
    }
}

/// `s` without its trailing white space.
pub open spec fn trim_end(s: Seq<char>) -> Seq<char>
    decreases s.len(),
{
    if s.len() > 0 && spec_is_whitespace(s.last()) {
        trim_end(s.drop_last())
    } else {
        s
    }
}

/// `s` without leading and trailing white space (as `str::trim`).
pub open spec fn trim(s: Seq<char>) -> Seq<char> {
    trim_end(trim_start(s))
}

/// The bounds of the trimmed part of `v`.
pub fn trim_bounds(v: &Vec<char>) -> (r: (usize, usize))
    ensures
        r.0 <= r.1 <= v@.len(),
        v@.subrange(r.0 as int, r.1 as int) == trim(v@),
{
    let n = v.len();
    let mut lo: usize = 0;
    assert(v@.subrange(0, n as int) =~= v@);
    while lo < n && is_whitespace(v[lo])
        invariant
            lo <= n == v@.len(),
            trim_start(v@.subrange(lo as int, n as int)) == trim_start(v@),
        decreases n - lo,
    {
        assert(v@.subrange(lo as int, n as int).drop_first() =~= v@.subrange(lo + 1, n as int));
        lo = lo + 1;
    }
    assert(v@.subrange(0, n as int) =~= v@);
    let mut hi: usize = n;
    while hi > lo && is_whitespace(v[hi - 1])
        invariant
            lo <= hi <= n == v@.len(),
            trim_end(v@.subrange(lo as int, hi as int)) == trim(v@),
        decreases hi,
    {
        assert(v@.subrange(lo as int, hi as int).drop_last() =~= v@.subrange(lo as int, hi - 1));
        hi = hi - 1;
    }
    (lo, hi)
}

/// The parts of `cur + rest` around `sep`, `cur` being the part read so far.
pub open spec fn split_from(cur: Seq<char>, rest: Seq<char>, sep: char) -> Seq<Seq<char>>
    decreases rest.len(),
{
    if rest.len() == 0 {
        seq![cur]
    } else if rest[0] == sep {
        seq![cur] + split_from(Seq::empty(), rest.drop_first(), sep)
    } else {
        split_from(cur.push(rest[0]), rest.drop_first(), sep)
    }
}

/// The parts of `s` around each `sep` (as `str::split` with a character pattern):
/// always at least one part, one more than there are separators.
pub open spec fn split(s: Seq<char>, sep: char) -> Seq<Seq<char>> {
    split_from(Seq::empty(), s, sep)
}

/// The views of a list of character vectors.
pub open spec fn views(parts: Seq<Vec<char>>) -> Seq<Seq<char>> {
    parts.map_values(|p: Vec<char>| p@)
}

/// Splits `v[lo..hi]` around each `sep`.
pub fn split_range(v: &Vec<char>, lo: usize, hi: usize, sep: char) -> (parts: Vec<Vec<char>>)
    requires
        lo <= hi <= v@.len(),
    ensures
        views(parts@) == split(v@.subrange(lo as int, hi as int), sep),
{
    let mut parts: Vec<Vec<char>> = Vec::new();
    let mut cur: Vec<char> = Vec::new();
    let mut i = lo;
    while i < hi
        invariant
            lo <= i <= hi <= v@.len(),
            views(parts@) + split_from(cur@, v@.subrange(i as int, hi as int), sep) == split(
                v@.subrange(lo as int, hi as int),
                sep,
            ),
        decreases hi - i,
    {
        let c = v[i];
        let ghost rest = v@.subrange(i as int, hi as int);
        assert(rest.drop_first() =~= v@.subrange(i + 1, hi as int));
        if c == sep {
            let ghost old_parts = views(parts@);
            let done = cur;
            cur = Vec::new();
            parts.push(done);
            assert(views(parts@) =~= old_parts + seq![done@]);
            assert(cur@ =~= Seq::<char>::empty());
            assert(old_parts + (seq![done@] + split_from(cur@, rest.drop_first(), sep)) =~= views(
                parts@,
            ) + split_from(cur@, rest.drop_first(), sep));
        } else {
            cur.push(c);
        }
        i = i + 1;
    }
    let ghost before = views(parts@);
    parts.push(cur);
    assert(views(parts@) =~= before + split_from(cur@, v@.subrange(i as int, hi as int), sep));
    parts
}

/// The position of the first `c` in `s`, if any.
pub open spec fn find_char(s: Seq<char>, c: char) -> Option<int>
    decreases s.len(),
{
    if s.len() == 0 {
        None
    } else if s[0] == c {
        Some(0)
    } else {
        match find_char(s.drop_first(), c) {
            Some(i) => Some(i + 1),
            None => None,
        }
    }
}

/// Finds the first `c` in `s`.
pub fn find(s: &Vec<char>, c: char) -> (r: Option<usize>)
    ensures
        match find_char(s@, c) {
            Some(i) => 0 <= i < s@.len() && r == Some(i as usize),
            None => r is None,
        },
        r matches Some(i) ==> i < s@.len() && s@[i as int] == c,
{
    let n = s.len();
    let mut i: usize = 0;
    assert(s@.skip(0) =~= s@);
    while i < n
        invariant
            i <= n == s@.len(),
            find_char(s@, c) == match find_char(s@.skip(i as int), c) {
                Some(j) => Some(j + i),
                None => None::<int>,
            },
        decreases n - i,
    {
        assert(s@.skip(i as int).drop_first() =~= s@.skip(i + 1));
        if s[i] == c {
            return Some(i);
        }
        i = i + 1;
    }
    None
}

/// Every character of `s` is white space.
pub open spec fn all_whitespace(s: Seq<char>) -> bool {
    forall|i: int| 0 <= i < s.len() ==> spec_is_whitespace(#[trigger] s[i])
}

/// Leading white space before a text is trimmed away with the text's own.
pub proof fn lemma_trim_start_after_space(w: Seq<char>, x: Seq<char>)
    requires
        all_whitespace(w),
    ensures
        trim_start(w + x) == trim_start(x),
    decreases w.len(),
{
    if w.len() > 0 {
        assert((w + x).drop_first() =~= w.drop_first() + x);
        assert((w + x)[0] == w[0]);
        lemma_trim_start_after_space(w.drop_first(), x);
    } else {
        assert(w + x =~= x);
    }
}

/// Trailing white space after a text is trimmed away with the text's own.
pub proof fn lemma_trim_end_before_space(x: Seq<char>, w: Seq<char>)
    requires
        all_whitespace(w),
    ensures
        trim_end(x + w) == trim_end(x),
    decreases w.len(),
{
    if w.len() > 0 {
        assert((x + w).drop_last() =~= x + w.drop_last());
        assert((x + w).last() == w.last());
        lemma_trim_end_before_space(x, w.drop_last());
    } else {
        assert(x + w =~= x);
    }
}

/// Trimming the start of `x + y` trims `x`, or, when `x` is all white space, trims `y`.
proof fn lemma_trim_start_concat(x: Seq<char>, y: Seq<char>)
    ensures
        all_whitespace(x) ==> trim_start(x + y) == trim_start(y),
        !all_whitespace(x) ==> trim_start(x + y) == trim_start(x) + y,
        all_whitespace(x) ==> trim_start(x).len() == 0,
    decreases x.len(),
{
    if x.len() == 0 {
        assert(x + y =~= y);
    } else {
        assert((x + y).drop_first() =~= x.drop_first() + y);
        assert((x + y)[0] == x[0]);
        lemma_trim_start_concat(x.drop_first(), y);
        if spec_is_whitespace(x[0]) {
            if !all_whitespace(x) {
                let i = choose|i: int| 0 <= i < x.len() && !spec_is_whitespace(#[trigger] x[i]);
                assert(x.drop_first()[i - 1] == x[i]);
            } else {
                assert forall|i: int| 0 <= i < x.drop_first().len() implies spec_is_whitespace(
                    #[trigger] x.drop_first()[i],
                ) by {
                    assert(x.drop_first()[i] == x[i + 1]);
                }
            }
        } else {
            assert(!all_whitespace(x));
        }
    }
}

/// Trimming ignores white space around a text: `trim(w1 + s + w2) == trim(s)`.
pub proof fn lemma_trim_ignores_surrounding_space(w1: Seq<char>, s: Seq<char>, w2: Seq<char>)
    requires
        all_whitespace(w1),
        all_whitespace(w2),
    ensures
        trim(w1 + s + w2) == trim(s),
{
    assert(w1 + s + w2 =~= w1 + (s + w2));
    lemma_trim_start_after_space(w1, s + w2);
    lemma_trim_start_concat(s, w2);
    if all_whitespace(s) {
        lemma_trim_start_concat(w2, Seq::<char>::empty());
        assert(w2 + Seq::<char>::empty() =~= w2);
        assert(trim_start(s + w2) == trim_start(w2));
        assert(trim_start(w2).len() == 0);
        assert(trim_start(s).len() == 0);
        assert(trim_start(w2) =~= trim_start(s));
    } else {
        lemma_trim_end_before_space(trim_start(s), w2);
    }
}

/// A text starting and ending with non-white-space characters is its own trim.
pub proof fn lemma_trim_unchanged(s: Seq<char>)
    requires
        s.len() > 0,
        !spec_is_whitespace(s[0]),
        !spec_is_whitespace(s.last()),
    ensures
        trim(s) == s,
{
}

/// Splitting a part that holds no separator continues the current part.
pub proof fn lemma_split_from_plain(cur: Seq<char>, x: Seq<char>, rest: Seq<char>, sep: char)
    requires
        forall|i: int| 0 <= i < x.len() ==> #[trigger] x[i] != sep,
    ensures
        split_from(cur, x + rest, sep) == split_from(cur + x, rest, sep),
    decreases x.len(),
{
    if x.len() == 0 {
        assert(x + rest =~= rest);
        assert(cur + x =~= cur);
    } else {
        assert((x + rest)[0] == x[0]);
        assert((x + rest).drop_first() =~= x.drop_first() + rest);
        assert(cur.push(x[0]) + x.drop_first() =~= cur + x);
        lemma_split_from_plain(cur.push(x[0]), x.drop_first(), rest, sep);
    }
}

/// The parts of `x + [sep] + rest`, for `x` without a separator: `x`, then the parts of `rest`.
pub proof fn lemma_split_at_first(x: Seq<char>, rest: Seq<char>, sep: char)
    requires
        forall|i: int| 0 <= i < x.len() ==> #[trigger] x[i] != sep,
    ensures
        split(x + seq![sep] + rest, sep) == seq![x] + split(rest, sep),
{
    assert(x + seq![sep] + rest =~= x + (seq![sep] + rest));
    lemma_split_from_plain(Seq::empty(), x, seq![sep] + rest, sep);
    assert(Seq::<char>::empty() + x =~= x);
    assert((seq![sep] + rest).drop_first() =~= rest);
}

/// A text without a separator is a single part.
pub proof fn lemma_split_single(x: Seq<char>, sep: char)
    requires
        forall|i: int| 0 <= i < x.len() ==> #[trigger] x[i] != sep,
    ensures
        split(x, sep) == seq![x],
{
    lemma_split_from_plain(Seq::empty(), x, Seq::empty(), sep);
    assert(x + Seq::<char>::empty() =~= x);
    assert(Seq::<char>::empty() + x =~= x);
}

/// No occurrence, no position.
pub proof fn lemma_find_absent(s: Seq<char>, c: char)
    requires
        forall|i: int| 0 <= i < s.len() ==> #[trigger] s[i] != c,
    ensures
        find_char(s, c) is None,
    decreases s.len(),
{
    if s.len() > 0 {
        assert forall|i: int| 0 <= i < s.drop_first().len() implies #[trigger] s.drop_first()[i]
            != c by {
            assert(s.drop_first()[i] == s[i + 1]);
        }
        lemma_find_absent(s.drop_first(), c);
    }
}

/// The position of `c` after a part without it.
pub proof fn lemma_find_after(x: Seq<char>, c: char, rest: Seq<char>)
    requires
        forall|i: int| 0 <= i < x.len() ==> #[trigger] x[i] != c,
    ensures
        find_char(x + seq![c] + rest, c) == Some(x.len() as int),
    decreases x.len(),
{
    let s = x + seq![c] + rest;
    if x.len() > 0 {
        assert(s.drop_first() =~= x.drop_first() + seq![c] + rest);
        assert(s[0] == x[0]);
        lemma_find_after(x.drop_first(), c, rest);
    } else {
        assert(s[0] == c);
    }
}

} // verus!
