//! Text as sequences of characters: the conversions between `str`, `String`
//! and `Vec<char>` and the small operations the rest of the library needs.

use vstd::prelude::*;

verus! {

/// Appends one character to a string.
///
/// Trusted: `String::push` of the standard library, which appends the given
/// character to the end of the string.
#[verifier::external_body]
pub(crate) fn push_char(s: &mut String, c: char)
    ensures
        final(s)@ == old(s)@.push(c),
{
    s.push(c);
}

/// The characters of `s`, in order.
pub fn chars_of(s: &str) -> (v: Vec<char>)
    ensures
        v@ == s@,
{
    let mut v: Vec<char> = Vec::new();
    for c in it: s.chars()
        invariant
            it.seq() == s@,
            v.len() == it.index(),
            forall|i: int| 0 <= i < v.len() ==> v@[i] == it.seq()[i],
    {
        v.push(c);
    }
    v
}

/// The string made of the characters `v[from..to]`.
pub fn string_of(v: &Vec<char>, from: usize, to: usize) -> (s: String)
    requires
        from <= to <= v.len(),
    ensures
        s@ == v@.subrange(from as int, to as int),
{
    let mut s = String::new();
    let mut i: usize = from;
    while i < to
        invariant
            from <= i <= to <= v.len(),
            s@ == v@.subrange(from as int, i as int),
        decreases to - i,
    {
        push_char(&mut s, v[i]);
        i = i + 1;
    }
    s
}

/// White space as Unicode defines it (the property `White_Space`), which is
/// what the trimming operations of `str` remove.
pub open spec fn is_space(c: char) -> bool {
    ||| '\u{9}' <= c <= '\u{d}'
    ||| c == ' '
    ||| c == '\u{85}'
    ||| c == '\u{a0}'
    ||| c == '\u{1680}'
    ||| '\u{2000}' <= c <= '\u{200a}'
    ||| c == '\u{2028}'
    ||| c == '\u{2029}'
    ||| c == '\u{202f}'
    ||| c == '\u{205f}'
    ||| c == '\u{3000}'
}

/// Decides `is_space`.
pub fn space(c: char) -> (r: bool)
    ensures
        r == is_space(c),
{
    ('\u{9}' <= c && c <= '\u{d}') || c == ' ' || c == '\u{85}' || c == '\u{a0}' || c
        == '\u{1680}' || ('\u{2000}' <= c && c <= '\u{200a}') || c == '\u{2028}' || c
        == '\u{2029}' || c == '\u{202f}' || c == '\u{205f}' || c == '\u{3000}'
}

/// `s` without its leading white space.
pub open spec fn trim_start(s: Seq<char>) -> Seq<char>
    decreases s.len(),
{
    if s.len() > 0 && is_space(s[0]) {
        trim_start(s.drop_first())
    } else {
        s
    }
}

/// `s` without its trailing white space.
pub open spec fn trim_end(s: Seq<char>) -> Seq<char>
    decreases s.len(),
{
    if s.len() > 0 && is_space(s.last()) {
        trim_end(s.drop_last())
    } else {
        s
    }
}

/// `s` without leading and trailing white space.
pub open spec fn trim(s: Seq<char>) -> Seq<char> {
    trim_end(trim_start(s))
}

/// A text is trimmed when trimming leaves it as it is.
pub open spec fn is_trimmed(s: Seq<char>) -> bool {
    s.len() > 0 ==> !is_space(s[0]) && !is_space(s.last())
}

/// Trimming the start leaves a suffix that does not begin with white space.
pub proof fn lemma_trim_start(s: Seq<char>)
    ensures
        trim_start(s).len() <= s.len(),
        trim_start(s) == s.subrange(s.len() - trim_start(s).len(), s.len() as int),
        trim_start(s).len() > 0 ==> !is_space(trim_start(s)[0]),
        forall|i: int| 0 <= i < s.len() - trim_start(s).len() ==> is_space(#[trigger] s[i]),
    decreases s.len(),
{
    if s.len() > 0 && is_space(s[0]) {
        let t = s.drop_first();
        lemma_trim_start(t);
        let k = t.len() - trim_start(t).len();
        assert(t.subrange(k, t.len() as int) == s.subrange(k + 1, s.len() as int));
        assert forall|i: int| 0 <= i < s.len() - trim_start(s).len() implies is_space(
            #[trigger] s[i],
        ) by {
            if i > 0 {
                assert(s[i] == t[i - 1]);
            }
        }
    } else {
        assert(s.subrange(0, s.len() as int) == s);
    }
}

/// Trimming the end leaves a prefix that does not end with white space.
pub proof fn lemma_trim_end(s: Seq<char>)
    ensures
        trim_end(s).len() <= s.len(),
        trim_end(s) == s.subrange(0, trim_end(s).len() as int),
        trim_end(s).len() > 0 ==> !is_space(trim_end(s).last()),
        forall|i: int| trim_end(s).len() <= i < s.len() ==> is_space(#[trigger] s[i]),
    decreases s.len(),
{
    if s.len() > 0 && is_space(s.last()) {
        let t = s.drop_last();
        lemma_trim_end(t);
        let k = trim_end(t).len() as int;
        assert(t.subrange(0, k) == s.subrange(0, k));
        assert forall|i: int| trim_end(s).len() <= i < s.len() implies is_space(
            #[trigger] s[i],
        ) by {
            if i < s.len() - 1 {
                assert(s[i] == t[i]);
            }
        }
    } else {
        assert(s.subrange(0, s.len() as int) == s);
    }
}

/// What trimming returns is trimmed, and a trimmed text is left alone.
pub proof fn lemma_trim(s: Seq<char>)
    ensures
        is_trimmed(trim(s)),
        is_trimmed(s) ==> trim(s) == s,
        trim(s).len() <= s.len(),
{
    lemma_trim_start(s);
    lemma_trim_end(trim_start(s));
    let a = trim_start(s);
    let b = trim_end(a);
    if b.len() > 0 {
        assert(b[0] == a[0]);
    }
}

/// The bounds of `v[from..to]` once trimmed.
pub fn trim_bounds(v: &Vec<char>, from: usize, to: usize) -> (r: (usize, usize))
    requires
        from <= to <= v.len(),
    ensures
        from <= r.0 <= r.1 <= to,
        v@.subrange(r.0 as int, r.1 as int) == trim(v@.subrange(from as int, to as int)),
{
    let mut lo: usize = from;
    while lo < to && space(v[lo])
        invariant
            from <= lo <= to <= v.len(),
            trim_start(v@.subrange(from as int, to as int)) == trim_start(
                v@.subrange(lo as int, to as int),
            ),
        decreases to - lo,
    {
        assert(v@.subrange(lo as int, to as int).drop_first() == v@.subrange(
            lo + 1,
            to as int,
        ));
        lo = lo + 1;
    }
    assert(trim_start(v@.subrange(lo as int, to as int)) == v@.subrange(lo as int, to as int));
    let mut hi: usize = to;
    while lo < hi && space(v[hi - 1])
        invariant
            lo <= hi <= to <= v.len(),
            trim_end(v@.subrange(lo as int, to as int)) == trim_end(
                v@.subrange(lo as int, hi as int),
            ),
        decreases hi - lo,
    {
        assert(v@.subrange(lo as int, hi as int).drop_last() == v@.subrange(
            lo as int,
            hi - 1,
        ));
        hi = hi - 1;
    }
    assert(trim_end(v@.subrange(lo as int, hi as int)) == v@.subrange(lo as int, hi as int));
    (lo, hi)
}

/// The index of the first `c` in `s`, or the length of `s` where there is none.
pub open spec fn first_index(s: Seq<char>, c: char) -> int
    decreases s.len(),
{
    if s.len() == 0 || s[0] == c {
        0
    } else {
        1 + first_index(s.drop_first(), c)
    }
}

/// `first_index` lies within the text, points at `c` if anywhere, and passes
/// over no `c`.
pub proof fn lemma_first_index(s: Seq<char>, c: char)
    ensures
        0 <= first_index(s, c) <= s.len(),
        first_index(s, c) < s.len() ==> s[first_index(s, c)] == c,
        forall|i: int| 0 <= i < first_index(s, c) ==> #[trigger] s[i] != c,
    decreases s.len(),
{
    if s.len() == 0 || s[0] == c {
    } else {
        let t = s.drop_first();
        lemma_first_index(t, c);
        assert forall|i: int| 0 <= i < first_index(s, c) implies #[trigger] s[i] != c by {
            if i > 0 {
                assert(s[i] == t[i - 1]);
            }
        }
    }
}

/// An index that points at `c`, or at the end, with no `c` before it is the
/// first index.
pub proof fn lemma_first_index_is(s: Seq<char>, c: char, k: int)
    requires
        0 <= k <= s.len(),
        k < s.len() ==> s[k] == c,
        forall|i: int| 0 <= i < k ==> #[trigger] s[i] != c,
    ensures
        first_index(s, c) == k,
    decreases s.len(),
{
    if s.len() == 0 || s[0] == c {
    } else {
        let t = s.drop_first();
        assert forall|i: int| 0 <= i < k - 1 implies #[trigger] t[i] != c by {
            assert(t[i] == s[i + 1]);
        }
        lemma_first_index_is(t, c, k - 1);
    }
}

/// The position of the first `c` in `v[from..to]`, or `to`.
pub fn find_char(v: &Vec<char>, from: usize, to: usize, c: char) -> (k: usize)
    requires
        from <= to <= v.len(),
    ensures
        from <= k <= to,
        k - from == first_index(v@.subrange(from as int, to as int), c),
{
    let mut k: usize = from;
    while k < to && v[k] != c
        invariant
            from <= k <= to <= v.len(),
            forall|i: int| from <= i < k ==> v@[i] != c,
        decreases to - k,
    {
        k = k + 1;
    }
    proof {
        lemma_first_index_is(v@.subrange(from as int, to as int), c, k - from);
    }
    k
}

/// The pieces of `s` between occurrences of `c`, as `str::split` gives them:
/// one more piece than there are separators.
pub open spec fn split_on(s: Seq<char>, c: char) -> Seq<Seq<char>>
    decreases s.len(),
{
    let k = first_index(s, c);
    if 0 <= k < s.len() {
        seq![s.take(k)] + split_on(s.skip(k + 1), c)
    } else {
        seq![s]
    }
}

/// `line` without one trailing carriage return.
pub open spec fn strip_cr(line: Seq<char>) -> Seq<char> {
    if line.len() > 0 && line.last() == '\r' {
        line.drop_last()
    } else {
        line
    }
}

/// The lines of `s`, as `str::lines` gives them: a line ends at a line feed,
/// which is left out together with a carriage return just before it; the
/// last line needs no line feed, and an empty text has no line.
pub open spec fn lines_of(s: Seq<char>) -> Seq<Seq<char>>
    decreases s.len(),
{
    let k = first_index(s, '\n');
    if s.len() == 0 {
        seq![]
    } else if 0 <= k < s.len() {
        seq![strip_cr(s.take(k))] + lines_of(s.skip(k + 1))
    } else {
        seq![s]
    }
}

/// The texts that a list of bounds cuts out of `s`.
pub open spec fn cut(s: Seq<char>, bounds: Seq<(usize, usize)>) -> Seq<Seq<char>> {
    Seq::new(bounds.len(), |i: int| s.subrange(bounds[i].0 as int, bounds[i].1 as int))
}

/// Every pair of a list of bounds lies within a text of length `len`.
pub open spec fn bounds_within(bounds: Seq<(usize, usize)>, len: nat) -> bool {
    forall|i: int| 0 <= i < bounds.len() ==> (#[trigger] bounds[i]).0 <= bounds[i].1 <= len
}

/// The bounds of the pieces of `v[from..to]` between occurrences of `c`.
pub fn split_bounds(v: &Vec<char>, from: usize, to: usize, c: char) -> (r: Vec<(usize, usize)>)
    requires
        from <= to <= v.len(),
    ensures
        bounds_within(r@, v.len() as nat),
        cut(v@, r@) == split_on(v@.subrange(from as int, to as int), c),
        forall|i: int| 0 <= i < r.len() ==> from <= (#[trigger] r[i]).0 && r[i].1 <= to,
{
    let mut r: Vec<(usize, usize)> = Vec::new();
    let mut pos: usize = from;
    let ghost whole = v@.subrange(from as int, to as int);
    loop
        invariant_except_break
            split_on(whole, c) == cut(v@, r@) + split_on(v@.subrange(pos as int, to as int), c),
        invariant
            from <= pos <= to <= v.len(),
            whole == v@.subrange(from as int, to as int),
            bounds_within(r@, v.len() as nat),
            forall|i: int| 0 <= i < r.len() ==> from <= (#[trigger] r[i]).0 && r[i].1 <= to,
        ensures
            bounds_within(r@, v.len() as nat),
            forall|i: int| 0 <= i < r.len() ==> from <= (#[trigger] r[i]).0 && r[i].1 <= to,
            split_on(whole, c) == cut(v@, r@),
        decreases to - pos,
    {
        let k = find_char(v, pos, to, c);
        let ghost rest = v@.subrange(pos as int, to as int);
        let ghost before = cut(v@, r@);
        r.push((pos, k));
        assert(cut(v@, r@) == before + seq![v@.subrange(pos as int, k as int)]);
        assert(rest.take(k - pos) == v@.subrange(pos as int, k as int));
        if k == to {
            assert(rest.take(k - pos) == rest);
            break ;
        }
        assert(rest.skip(k - pos + 1) == v@.subrange(k + 1, to as int));
        pos = k + 1;
    }
    r
}

/// The bounds of the lines of `v`.
pub fn line_bounds(v: &Vec<char>) -> (r: Vec<(usize, usize)>)
    ensures
        bounds_within(r@, v.len() as nat),
        cut(v@, r@) == lines_of(v@),
{
    let mut r: Vec<(usize, usize)> = Vec::new();
    let mut pos: usize = 0;
    let to = v.len();
    assert(v@.subrange(0, to as int) == v@);
    while pos < to
        invariant
            pos <= to == v.len(),
            bounds_within(r@, v.len() as nat),
            lines_of(v@) == cut(v@, r@) + lines_of(v@.subrange(pos as int, to as int)),
        decreases to - pos,
    {
        let k = find_char(v, pos, to, '\n');
        let ghost rest = v@.subrange(pos as int, to as int);
        let ghost before = cut(v@, r@);
        assert(rest.take(k - pos) == v@.subrange(pos as int, k as int));
        if k == to {
            r.push((pos, k));
            assert(cut(v@, r@) == before + seq![v@.subrange(pos as int, k as int)]);
            assert(rest.take(k - pos) == rest);
            pos = to;
        } else {
            let end = if k > pos && v[k - 1] == '\r' {
                k - 1
            } else {
                k
            };
            assert(strip_cr(rest.take(k - pos)) == v@.subrange(pos as int, end as int));
            r.push((pos, end));
            assert(cut(v@, r@) == before + seq![v@.subrange(pos as int, end as int)]);
            assert(rest.skip(k - pos + 1) == v@.subrange(k + 1, to as int));
            pos = k + 1;
        }
    }
    r
}

/// Appends the characters `v[from..to]` to a string.
pub fn append_chars(s: &mut String, v: &Vec<char>, from: usize, to: usize)
    requires
        from <= to <= v.len(),
    ensures
        final(s)@ == old(s)@ + v@.subrange(from as int, to as int),
{
    let mut i: usize = from;
    assert(v@.subrange(from as int, from as int) == Seq::<char>::empty());
    while i < to
        invariant
            from <= i <= to <= v.len(),
            s@ == old(s)@ + v@.subrange(from as int, i as int),
        decreases to - i,
    {
        push_char(s, v[i]);
        assert(v@.subrange(from as int, i + 1) == v@.subrange(from as int, i as int).push(
            v@[i as int],
        ));
        i = i + 1;
    }
}

/// `s` ends with `suffix`.
pub open spec fn ends_with(s: Seq<char>, suffix: Seq<char>) -> bool {
    suffix.len() <= s.len() && s.subrange(s.len() - suffix.len(), s.len() as int) == suffix
}

/// Decides whether `v[from..to]` ends with `suffix`.
pub fn has_suffix(v: &Vec<char>, from: usize, to: usize, suffix: &str) -> (r: bool)
    requires
        from <= to <= v.len(),
    ensures
        r == ends_with(v@.subrange(from as int, to as int), suffix@),
{
    let tail = chars_of(suffix);
    if tail.len() > to - from {
        return false;
    }
    let start = to - tail.len();
    let ghost s = v@.subrange(from as int, to as int);
    let mut i: usize = 0;
    while i < tail.len()
        invariant
            i <= tail.len(),
            from <= start,
            start + tail.len() == to <= v.len(),
            s == v@.subrange(from as int, to as int),
            tail@ == suffix@,
            forall|j: int| 0 <= j < i ==> v@[start + j] == tail@[j],
        decreases tail.len() - i,
    {
        if v[start + i] != tail[i] {
            assert(s.subrange(s.len() - tail.len(), s.len() as int)[i as int] != tail@[i as int]);
            return false;
        }
        i = i + 1;
    }
    assert(s.subrange(s.len() - tail.len(), s.len() as int) =~= tail@);
    true
}

/// Decides whether `v[from..to]` is the text `other`.
pub fn is_text(v: &Vec<char>, from: usize, to: usize, other: &str) -> (r: bool)
    requires
        from <= to <= v.len(),
    ensures
        r == (v@.subrange(from as int, to as int) == other@),
{
    let o = chars_of(other);
    if o.len() != to - from {
        return false;
    }
    let r = has_suffix(v, from, to, other);
    assert(v@.subrange(from as int, to as int).subrange(0, (to - from) as int) == v@.subrange(
        from as int,
        to as int,
    ));
    r
}

/// `s` without the run of `c` at its end.
pub open spec fn drop_trailing(s: Seq<char>, c: char) -> Seq<char>
    decreases s.len(),
{
    if s.len() > 0 && s.last() == c {
        drop_trailing(s.drop_last(), c)
    } else {
        s
    }
}

/// The end of `v[from..to]` once the run of `c` at its end is left out.
pub fn trailing_bound(v: &Vec<char>, from: usize, to: usize, c: char) -> (end: usize)
    requires
        from <= to <= v.len(),
    ensures
        from <= end <= to,
        v@.subrange(from as int, end as int) == drop_trailing(
            v@.subrange(from as int, to as int),
            c,
        ),
{
    let mut end: usize = to;
    while from < end && v[end - 1] == c
        invariant
            from <= end <= to <= v.len(),
            drop_trailing(v@.subrange(from as int, to as int), c) == drop_trailing(
                v@.subrange(from as int, end as int),
                c,
            ),
        decreases end - from,
    {
        assert(v@.subrange(from as int, end as int).drop_last() == v@.subrange(
            from as int,
            end - 1,
        ));
        end = end - 1;
    }
    end
}

/// `a` comes before `b` in the order of texts, which is the order of
/// strings: at the first place where they differ `a` has the smaller
/// character, or `a` ends there and `b` goes on.
pub open spec fn text_lt(a: Seq<char>, b: Seq<char>) -> bool
    decreases a.len(),
{
    if b.len() == 0 {
        false
    } else if a.len() == 0 {
        true
    } else if a[0] != b[0] {
        a[0] < b[0]
    } else {
        text_lt(a.drop_first(), b.drop_first())
    }
}

/// No text comes before itself.
pub proof fn lemma_text_lt_irreflexive(a: Seq<char>)
    ensures
        !text_lt(a, a),
    decreases a.len(),
{
    if a.len() > 0 {
        lemma_text_lt_irreflexive(a.drop_first());
    }
}

/// Of two texts at most one comes before the other.
pub proof fn lemma_text_lt_asymmetric(a: Seq<char>, b: Seq<char>)
    requires
        text_lt(a, b),
    ensures
        !text_lt(b, a),
    decreases a.len(),
{
    if a.len() > 0 && b.len() > 0 && a[0] == b[0] {
        lemma_text_lt_asymmetric(a.drop_first(), b.drop_first());
    }
}

/// Of two different texts one comes before the other.
pub proof fn lemma_text_lt_total(a: Seq<char>, b: Seq<char>)
    ensures
        a == b || text_lt(a, b) || text_lt(b, a),
    decreases a.len(),
{
    if a.len() > 0 && b.len() > 0 && a[0] == b[0] {
        lemma_text_lt_total(a.drop_first(), b.drop_first());
        if a.drop_first() == b.drop_first() {
            assert(a =~= seq![a[0]] + a.drop_first());
            assert(b =~= seq![b[0]] + b.drop_first());
        }
    } else if a.len() == 0 && b.len() == 0 {
        assert(a =~= b);
    }
}

/// The order of texts is transitive.
pub proof fn lemma_text_lt_transitive(a: Seq<char>, b: Seq<char>, c: Seq<char>)
    requires
        text_lt(a, b),
        text_lt(b, c),
    ensures
        text_lt(a, c),
    decreases a.len(),
{
    if a.len() > 0 && b.len() > 0 && c.len() > 0 && a[0] == b[0] && b[0] == c[0] {
        lemma_text_lt_transitive(a.drop_first(), b.drop_first(), c.drop_first());
    }
}

/// Decides `text_lt`.
pub fn text_less(a: &Vec<char>, b: &Vec<char>) -> (r: bool)
    ensures
        r == text_lt(a@, b@),
{
    let mut i: usize = 0;
    assert(a@.skip(0) == a@ && b@.skip(0) == b@);
    while i < a.len() && i < b.len()
        invariant
            i <= a.len(),
            i <= b.len(),
            text_lt(a@, b@) == text_lt(a@.skip(i as int), b@.skip(i as int)),
        decreases a.len() - i,
    {
        assert(a@.skip(i as int)[0] == a@[i as int]);
        assert(b@.skip(i as int)[0] == b@[i as int]);
        if a[i] != b[i] {
            return a[i] < b[i];
        }
        assert(a@.skip(i as int).drop_first() == a@.skip(i + 1));
        assert(b@.skip(i as int).drop_first() == b@.skip(i + 1));
        i = i + 1;
    }
    i < b.len()
}

/// Tells whether two texts are the same.
pub fn same_chars(a: &Vec<char>, b: &Vec<char>) -> (r: bool)
    ensures
        r == (a@ == b@),
{
    if a.len() != b.len() {
        return false;
    }
    let mut i: usize = 0;
    while i < a.len()
        invariant
            i <= a.len() == b.len(),
            forall|j: int| 0 <= j < i ==> a@[j] == b@[j],
        decreases a.len() - i,
    {
        if a[i] != b[i] {
            return false;
        }
        i = i + 1;
    }
    assert(a@ =~= b@);
    true
}

/// The texts of `items` in one text, with `sep` between each two.
pub open spec fn joined(items: Seq<Seq<char>>, sep: Seq<char>) -> Seq<char>
    decreases items.len(),
{
    if items.len() == 0 {
        seq![]
    } else if items.len() == 1 {
        items[0]
    } else {
        items[0] + sep + joined(items.drop_first(), sep)
    }
}

/// What is still to be written once the first `i` items are: nothing at the
/// end, and else the separator and the rest joined.
pub open spec fn join_rest(items: Seq<Seq<char>>, sep: Seq<char>, i: int) -> Seq<char> {
    if i >= items.len() {
        seq![]
    } else {
        sep + joined(items.skip(i), sep)
    }
}

/// The texts of a list of strings.
pub open spec fn texts_of(items: Seq<String>) -> Seq<Seq<char>> {
    items.map_values(|s: String| s@)
}

/// Joins strings, with `sep` between each two.
pub fn join(items: &Vec<String>, sep: &str) -> (r: String)
    ensures
        r@ == joined(texts_of(items@), sep@),
{
    let mut r = String::new();
    if items.len() == 0 {
        return r;
    }
    let ghost all = texts_of(items@);
    r.append(items[0].as_str());
    let mut i: usize = 1;
    proof {
        assert(r@ == all[0]);
        if all.len() > 1 {
            assert(all.skip(1) == all.drop_first());
        }
    }
    while i < items.len()
        invariant
            1 <= i <= items.len(),
            all == texts_of(items@),
            r@ + join_rest(all, sep@, i as int) == joined(all, sep@),
        decreases items.len() - i,
    {
        let ghost before = r@;
        r.append(sep);
        r.append(items[i].as_str());
        proof {
            let rest = all.skip(i as int);
            assert(rest[0] == all[i as int]);
            assert(rest.drop_first() == all.skip(i + 1));
            if i + 1 < items.len() {
                assert(joined(rest, sep@) == rest[0] + sep@ + joined(rest.drop_first(), sep@));
                assert(before + (sep@ + (rest[0] + sep@ + joined(all.skip(i + 1), sep@))) == (before
                    + sep@ + rest[0]) + (sep@ + joined(all.skip(i + 1), sep@)));
            } else {
                assert(rest.len() == 1);
                assert(before + (sep@ + rest[0]) == (before + sep@ + rest[0]) + Seq::<char>::empty());
            }
        }
        i = i + 1;
    }
    assert(r@ + Seq::<char>::empty() == r@);
    r
}

/// Splitting at a character what was joined by it gives the items back,
/// where there is an item and none of them holds the character.
pub proof fn lemma_split_joined(items: Seq<Seq<char>>, c: char)
    requires
        items.len() > 0,
        forall|i: int| 0 <= i < items.len() ==> !(#[trigger] items[i]).contains(c),
    ensures
        split_on(joined(items, seq![c]), c) == items,
    decreases items.len(),
{
    let whole = joined(items, seq![c]);
    if items.len() == 1 {
        assert forall|i: int| 0 <= i < whole.len() implies #[trigger] whole[i] != c by {
            assert(items[0].contains(whole[i]));
        }
        lemma_first_index_is(whole, c, whole.len() as int);
        assert(split_on(whole, c) =~= items);
    } else {
        let rest = items.drop_first();
        let k = items[0].len() as int;
        assert(whole == items[0] + seq![c] + joined(rest, seq![c]));
        assert forall|i: int| 0 <= i < k implies #[trigger] whole[i] != c by {
            assert(items[0].contains(whole[i]));
        }
        lemma_first_index_is(whole, c, k);
        assert(whole.take(k) =~= items[0]);
        assert(whole.skip(k + 1) =~= joined(rest, seq![c]));
        assert forall|i: int| 0 <= i < rest.len() implies !(#[trigger] rest[i]).contains(c) by {
            assert(rest[i] == items[i + 1]);
        }
        lemma_split_joined(rest, c);
        assert(split_on(whole, c) =~= items);
    }
}

/// No piece of a split holds the character at which the text was split.
pub proof fn lemma_split_pieces(s: Seq<char>, c: char)
    ensures
        split_on(s, c).len() > 0,
        forall|i: int| 0 <= i < split_on(s, c).len() ==> !(#[trigger] split_on(s, c)[i]).contains(c),
    decreases s.len(),
{
    let k = first_index(s, c);
    lemma_first_index(s, c);
    if 0 <= k < s.len() {
        lemma_split_pieces(s.skip(k + 1), c);
        let rest = split_on(s.skip(k + 1), c);
        assert forall|i: int| 0 <= i < split_on(s, c).len() implies !(#[trigger] split_on(
            s,
            c,
        )[i]).contains(c) by {
            if i == 0 {
                assert(split_on(s, c)[0] == s.take(k));
                if s.take(k).contains(c) {
                    let j = choose|j: int| 0 <= j < s.take(k).len() && s.take(k)[j] == c;
                    assert(s[j] == c);
                }
            } else {
                assert(split_on(s, c)[i] == rest[i - 1]);
            }
        }
    } else {
        assert(split_on(s, c)[0] == s);
        if s.contains(c) {
            let j = choose|j: int| 0 <= j < s.len() && s[j] == c;
            assert(s[j] == c);
        }
    }
}

/// Joining the pieces of a split by the character at which the text was
/// split gives the text back.
pub proof fn lemma_joined_split(s: Seq<char>, c: char)
    ensures
        joined(split_on(s, c), seq![c]) == s,
    decreases s.len(),
{
    let k = first_index(s, c);
    lemma_first_index(s, c);
    if 0 <= k < s.len() {
        let rest = split_on(s.skip(k + 1), c);
        lemma_joined_split(s.skip(k + 1), c);
        lemma_split_pieces(s.skip(k + 1), c);
        let all = split_on(s, c);
        assert(all.drop_first() =~= rest);
        assert(all[0] == s.take(k));
        assert(s =~= s.take(k) + seq![c] + s.skip(k + 1));
    }
}

/// The text made of `lines`, each followed by a line feed.
pub open spec fn unlines(lines: Seq<Seq<char>>) -> Seq<char>
    decreases lines.len(),
{
    if lines.len() == 0 {
        seq![]
    } else {
        unlines(lines.drop_last()) + lines.last() + seq!['\n']
    }
}

/// `unlines` taken from the front.
pub proof fn lemma_unlines_front(lines: Seq<Seq<char>>)
    requires
        lines.len() > 0,
    ensures
        unlines(lines) == lines[0] + seq!['\n'] + unlines(lines.drop_first()),
    decreases lines.len(),
{
    if lines.len() == 1 {
        assert(lines.drop_last() =~= Seq::<Seq<char>>::empty());
        assert(lines.drop_first() =~= Seq::<Seq<char>>::empty());
        assert(unlines(lines.drop_last()) =~= Seq::<char>::empty());
        assert(unlines(lines.drop_first()) =~= Seq::<char>::empty());
        assert(lines.last() == lines[0]);
        assert(unlines(lines) =~= lines[0] + seq!['\n']);
        assert(lines[0] + seq!['\n'] + unlines(lines.drop_first()) =~= lines[0] + seq!['\n']);
    } else {
        lemma_unlines_front(lines.drop_last());
        assert(lines.drop_last().drop_first() =~= lines.drop_first().drop_last());
        assert(lines.drop_last()[0] == lines[0]);
        assert(lines.drop_first().last() == lines.last());
        assert(unlines(lines) =~= lines[0] + seq!['\n'] + unlines(lines.drop_first()));
    }
}

/// A line stands as it is: it holds no line feed and does not end in a
/// carriage return.
pub open spec fn is_line(line: Seq<char>) -> bool {
    !line.contains('\n') && (line.len() > 0 ==> line.last() != '\r')
}

/// The lines of a text that was made of lines are those lines.
pub proof fn lemma_lines_of_unlines(lines: Seq<Seq<char>>)
    requires
        forall|i: int| 0 <= i < lines.len() ==> is_line(#[trigger] lines[i]),
    ensures
        lines_of(unlines(lines)) == lines,
    decreases lines.len(),
{
    if lines.len() == 0 {
        assert(lines_of(unlines(lines)) =~= lines);
    } else {
        let whole = unlines(lines);
        let first = lines[0];
        let rest = lines.drop_first();
        lemma_unlines_front(lines);
        let k = first.len() as int;
        assert forall|i: int| 0 <= i < k implies #[trigger] whole[i] != '\n' by {
            assert(first.contains(whole[i]));
        }
        assert(whole[k] == '\n');
        lemma_first_index_is(whole, '\n', k);
        assert(whole.take(k) =~= first);
        assert(whole.skip(k + 1) =~= unlines(rest));
        assert forall|i: int| 0 <= i < rest.len() implies is_line(#[trigger] rest[i]) by {
            assert(rest[i] == lines[i + 1]);
        }
        lemma_lines_of_unlines(rest);
        assert(strip_cr(first) == first);
        assert(lines_of(whole) =~= lines);
    }
}

/// No line of a text holds a line feed.
pub proof fn lemma_lines_hold_no_feed(s: Seq<char>)
    ensures
        forall|i: int| 0 <= i < lines_of(s).len() ==> !(#[trigger] lines_of(s)[i]).contains('\n'),
    decreases s.len(),
{
    let k = first_index(s, '\n');
    lemma_first_index(s, '\n');
    if s.len() == 0 {
    } else if 0 <= k < s.len() {
        lemma_lines_hold_no_feed(s.skip(k + 1));
        let rest = lines_of(s.skip(k + 1));
        let line = strip_cr(s.take(k));
        assert forall|i: int| 0 <= i < lines_of(s).len() implies !(#[trigger] lines_of(
            s,
        )[i]).contains('\n') by {
            if i == 0 {
                assert(lines_of(s)[0] == line);
                if line.contains('\n') {
                    let j = choose|j: int| 0 <= j < line.len() && line[j] == '\n';
                    assert(s[j] == '\n');
                }
            } else {
                assert(lines_of(s)[i] == rest[i - 1]);
            }
        }
    } else {
        assert(lines_of(s)[0] == s);
        if s.contains('\n') {
            let j = choose|j: int| 0 <= j < s.len() && s[j] == '\n';
            assert(s[j] == '\n');
        }
    }
}

/// What trimming leaves holds no character that the text did not hold.
pub proof fn lemma_trim_holds(s: Seq<char>, c: char)
    requires
        !s.contains(c),
    ensures
        !trim(s).contains(c),
{
    lemma_trim_start(s);
    lemma_trim_end(trim_start(s));
    let a = trim_start(s);
    let t = trim(s);
    if t.contains(c) {
        let j = choose|j: int| 0 <= j < t.len() && t[j] == c;
        assert(t[j] == a[j]);
        assert(a[j] == s[s.len() - a.len() + j]);
        assert(s.contains(c));
    }
}

/// A text that does not hold the character is one piece.
pub proof fn lemma_one_piece(s: Seq<char>, c: char)
    requires
        !s.contains(c),
    ensures
        split_on(s, c) == seq![s],
{
    assert forall|i: int| 0 <= i < s.len() implies #[trigger] s[i] != c by {
        assert(s.contains(s[i]));
    }
    lemma_first_index_is(s, c, s.len() as int);
}

/// A text followed by the character and by one more piece splits into its
/// own pieces and that piece.
pub proof fn lemma_split_append(s: Seq<char>, c: char, piece: Seq<char>)
    requires
        !piece.contains(c),
    ensures
        split_on(s + seq![c] + piece, c) == split_on(s, c).push(piece),
    decreases s.len(),
{
    let whole = s + seq![c] + piece;
    let k = first_index(s, c);
    lemma_first_index(s, c);
    assert forall|i: int| 0 <= i < k implies #[trigger] whole[i] != c by {
        assert(whole[i] == s[i]);
    }
    assert(whole[k] == c);
    lemma_first_index_is(whole, c, k);
    if k < s.len() {
        lemma_split_append(s.skip(k + 1), c, piece);
        assert(whole.skip(k + 1) =~= s.skip(k + 1) + seq![c] + piece);
        assert(whole.take(k) =~= s.take(k));
        assert(split_on(whole, c) =~= split_on(s, c).push(piece));
    } else {
        assert(whole.take(k) =~= s);
        assert(whole.skip(k + 1) =~= piece);
        lemma_one_piece(piece, c);
        assert(split_on(whole, c) =~= split_on(s, c).push(piece));
    }
}

} // verus!
