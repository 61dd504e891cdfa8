//! Reading line-oriented text: splitting into lines, cutting `#` comments,
//! trimming whitespace and splitting a line into whitespace-separated words,
//! with "whitespace" meaning Unicode `White_Space`, as `char::is_whitespace`
//! decides it.

use vstd::prelude::*;

verus! {

/// Unicode `White_Space`: what `char::is_whitespace` accepts.
pub open spec fn is_ws(c: char) -> bool {
    ||| '\t' <= c && c <= '\r'
    ||| c == ' '
    ||| c == '\u{85}'
    ||| c == '\u{a0}'
    ||| c == '\u{1680}'
    ||| '\u{2000}' <= c && c <= '\u{200a}'
    ||| c == '\u{2028}'
    ||| c == '\u{2029}'
    ||| c == '\u{202f}'
    ||| c == '\u{205f}'
    ||| c == '\u{3000}'
}

/// Whether `c` is whitespace, computed.
pub fn is_whitespace(c: char) -> (r: bool)
    ensures
        r == is_ws(c),
{
    ('\t' <= c && c <= '\r') || c == ' ' || c == '\u{85}' || c == '\u{a0}' || c == '\u{1680}' || (
    '\u{2000}' <= c && c <= '\u{200a}') || c == '\u{2028}' || c == '\u{2029}' || c == '\u{202f}'
        || c == '\u{205f}' || c == '\u{3000}'
}

/// The pieces of `s` between `\n` separators: one more than the number of
/// newlines (so a trailing newline leaves a last, empty piece).
pub open spec fn split_lines(s: Seq<char>) -> Seq<Seq<char>>
    decreases s.len(),
{
    if s.len() == 0 {
        seq![Seq::empty()]
    } else {
        let p = split_lines(s.drop_last());
        if s.last() == '\n' {
            p.push(Seq::empty())
        } else {
            p.update(p.len() - 1, p.last().push(s.last()))
        }
    }
}

/// `split_lines` never yields nothing.
pub proof fn lemma_split_lines_len(s: Seq<char>)
    ensures
        split_lines(s).len() >= 1,
    decreases s.len(),
{
    if s.len() > 0 {
        lemma_split_lines_len(s.drop_last());
    }
}

/// The part of `s` before its first `#` (all of it if there is none).
pub open spec fn before_hash(s: Seq<char>) -> Seq<char>
    decreases s.len(),
{
    if s.len() == 0 {
        s
    } else if s[0] == '#' {
        Seq::empty()
    } else {
        seq![s[0]] + before_hash(s.drop_first())
    }
}

/// `s` without its leading whitespace.
pub open spec fn trim_start(s: Seq<char>) -> Seq<char>
    decreases s.len(),
{
    if s.len() > 0 && is_ws(s[0]) {
        trim_start(s.drop_first())
    } else {
        s
    }
}

/// `s` without its trailing whitespace.
pub open spec fn trim_end(s: Seq<char>) -> Seq<char>
    decreases s.len(),
{
    if s.len() > 0 && is_ws(s.last()) {
        trim_end(s.drop_last())
    } else {
        s
    }
}

/// `s` without leading or trailing whitespace, as `str::trim` gives it.
pub open spec fn trim(s: Seq<char>) -> Seq<char> {
    trim_end(trim_start(s))
}

/// The maximal runs of non-whitespace in `s`, in order, as
/// `str::split_whitespace` yields them.
pub open spec fn words(s: Seq<char>) -> Seq<Seq<char>>
    decreases s.len(),
{
    if s.len() == 0 {
        Seq::empty()
    } else {
        let w = words(s.drop_last());
        let c = s.last();
        if is_ws(c) {
            w
        } else if s.len() >= 2 && !is_ws(s[s.len() - 2]) && w.len() > 0 {
            w.update(w.len() - 1, w.last().push(c))
        } else {
            w.push(seq![c])
        }
    }
}

/// The lines of `s` as `split_lines` gives them.
pub fn lines_of(s: &[char]) -> (r: Vec<Vec<char>>)
    ensures
        r@.len() == split_lines(s@).len(),
        forall|i: int| 0 <= i < r@.len() ==> (#[trigger] r@[i])@ == split_lines(s@)[i],
{
    let mut out: Vec<Vec<char>> = Vec::new();
    let mut cur: Vec<char> = Vec::new();
    let mut i: usize = 0;
    while i < s.len()
        invariant
            i <= s@.len(),
            out@.len() + 1 == split_lines(s@.take(i as int)).len(),
            forall|k: int| 0 <= k < out@.len() ==> (#[trigger] out@[k])@ == split_lines(
                s@.take(i as int),
            )[k],
            cur@ == split_lines(s@.take(i as int)).last(),
        decreases s@.len() - i,
    {
        proof {
            assert(s@.take(i + 1).drop_last() =~= s@.take(i as int));
            lemma_split_lines_len(s@.take(i as int));
        }
        let c = s[i];
        if c == '\n' {
            let mut fresh: Vec<char> = Vec::new();
            std::mem::swap(&mut fresh, &mut cur);
            out.push(fresh);
        } else {
            cur.push(c);
        }
        i = i + 1;
    }
    proof {
        assert(s@.take(s@.len() as int) =~= s@);
        lemma_split_lines_len(s@);
    }
    out.push(cur);
    out
}

/// The part of `s` before its first `#`.
pub fn before_hash_of(s: &[char]) -> (r: Vec<char>)
    ensures
        r@ == before_hash(s@),
{
    let mut i: usize = 0;
    proof {
        assert(s@.skip(0) =~= s@);
        assert(s@.take(0) + s@ =~= s@);
    }
    while i < s.len()
        invariant
            i <= s@.len(),
            before_hash(s@) == s@.take(i as int) + before_hash(s@.skip(i as int)),
        ensures
            i <= s@.len(),
            before_hash(s@) == s@.take(i as int),
        decreases s@.len() - i,
    {
        if s[i] == '#' {
            proof {
                assert(s@.skip(i as int)[0] == '#');
                assert(before_hash(s@.skip(i as int)) == Seq::<char>::empty());
                assert(s@.take(i as int) + Seq::<char>::empty() =~= s@.take(i as int));
            }
            break ;
        }
        proof {
            let rest = s@.skip(i as int);
            assert(rest.drop_first() =~= s@.skip(i + 1));
            assert(s@.take(i as int) + (seq![rest[0]] + before_hash(rest.drop_first())) =~= s@.take(
                i + 1,
            ) + before_hash(s@.skip(i + 1)));
        }
        i = i + 1;
    }
    let mut out: Vec<char> = Vec::new();
    let mut k: usize = 0;
    while k < i
        invariant
            k <= i <= s@.len(),
            out@ == s@.take(k as int),
        decreases i - k,
    {
        out.push(s[k]);
        proof {
            assert(out@ =~= s@.take(k + 1));
        }
        k = k + 1;
    }
    out
}

/// `s` without leading or trailing whitespace.
pub fn trim_of(s: &[char]) -> (r: Vec<char>)
    ensures
        r@ == trim(s@),
{
    let mut a: usize = 0;
    proof {
        assert(s@.skip(0) =~= s@);
    }
    while a < s.len() && is_whitespace(s[a])
        invariant
            a <= s@.len(),
            trim_start(s@) == trim_start(s@.skip(a as int)),
        decreases s@.len() - a,
    {
        proof {
            assert(s@.skip(a as int).drop_first() =~= s@.skip(a + 1));
        }
        a = a + 1;
    }
    proof {
        assert(trim_start(s@.skip(a as int)) == s@.skip(a as int));
    }
    let mut b: usize = s.len();
    while b > a && is_whitespace(s[b - 1])
        invariant
            a <= b <= s@.len(),
            trim(s@) == trim_end(s@.subrange(a as int, b as int)),
        decreases b,
    {
        proof {
            assert(s@.subrange(a as int, b as int).drop_last() =~= s@.subrange(a as int, b - 1));
        }
        b = b - 1;
    }
    proof {
        assert(trim_end(s@.subrange(a as int, b as int)) == s@.subrange(a as int, b as int));
    }
    let mut out: Vec<char> = Vec::new();
    let mut k: usize = a;
    while k < b
        invariant
            a <= k <= b <= s@.len(),
            out@ == s@.subrange(a as int, k as int),
        decreases b - k,
    {
        out.push(s[k]);
        proof {
            assert(out@ =~= s@.subrange(a as int, k + 1));
        }
        k = k + 1;
    }
    out
}

/// `s` without trailing whitespace.
pub fn trim_end_of(s: &[char]) -> (r: Vec<char>)
    ensures
        r@ == trim_end(s@),
{
    let mut b: usize = s.len();
    proof {
        assert(s@.subrange(0, b as int) =~= s@);
    }
    while b > 0 && is_whitespace(s[b - 1])
        invariant
            b <= s@.len(),
            trim_end(s@) == trim_end(s@.subrange(0, b as int)),
        decreases b,
    {
        proof {
            assert(s@.subrange(0, b as int).drop_last() =~= s@.subrange(0, b - 1));
        }
        b = b - 1;
    }
    let mut out: Vec<char> = Vec::new();
    let mut k: usize = 0;
    while k < b
        invariant
            k <= b <= s@.len(),
            out@ == s@.subrange(0, k as int),
        decreases b - k,
    {
        out.push(s[k]);
        proof {
            assert(out@ =~= s@.subrange(0, k + 1));
        }
        k = k + 1;
    }
    out
}

/// The whitespace-separated words of `s`.
pub fn words_of(s: &[char]) -> (r: Vec<Vec<char>>)
    ensures
        r@.len() == words(s@).len(),
        forall|i: int| 0 <= i < r@.len() ==> (#[trigger] r@[i])@ == words(s@)[i],
{
    let mut out: Vec<Vec<char>> = Vec::new();
    let mut cur: Vec<char> = Vec::new();
    let mut i: usize = 0;
    while i < s.len()
        invariant
            i <= s@.len(),
            cur@.len() == 0 ==> (out@.len() == words(s@.take(i as int)).len() && forall|k: int|
                0 <= k < out@.len() ==> (#[trigger] out@[k])@ == words(s@.take(i as int))[k]),
            cur@.len() > 0 ==> (out@.len() + 1 == words(s@.take(i as int)).len() && (forall|k: int|
                0 <= k < out@.len() ==> (#[trigger] out@[k])@ == words(s@.take(i as int))[k])
                && cur@ == words(s@.take(i as int)).last()),
            cur@.len() > 0 <==> (i > 0 && !is_ws(s@[i - 1])),
        decreases s@.len() - i,
    {
        proof {
            assert(s@.take(i + 1).drop_last() =~= s@.take(i as int));
            assert(s@.take(i + 1).last() == s@[i as int]);
            if i > 0 {
                assert(s@.take(i + 1)[i - 1] == s@[i - 1]);
            }
        }
        let c = s[i];
        if is_whitespace(c) {
            if cur.len() > 0 {
                let mut fresh: Vec<char> = Vec::new();
                std::mem::swap(&mut fresh, &mut cur);
                out.push(fresh);
            }
        } else {
            cur.push(c);
        }
        i = i + 1;
    }
    proof {
        assert(s@.take(s@.len() as int) =~= s@);
    }
    if cur.len() > 0 {
        out.push(cur);
    }
    out
}

/// Appending text with no newline extends the last line.
pub proof fn lemma_split_lines_extend(x: Seq<char>, y: Seq<char>)
    requires
        forall|i: int| 0 <= i < y.len() ==> #[trigger] y[i] != '\n',
    ensures
        split_lines(x + y) == split_lines(x).update(
            split_lines(x).len() - 1,
            split_lines(x).last() + y,
        ),
    decreases y.len(),
{
    lemma_split_lines_len(x);
    if y.len() == 0 {
        assert(x + y =~= x);
        assert(split_lines(x).last() + y =~= split_lines(x).last());
        assert(split_lines(x).update(split_lines(x).len() - 1, split_lines(x).last()) =~= split_lines(x));
    } else {
        let y2 = y.drop_last();
        lemma_split_lines_extend(x, y2);
        assert((x + y).drop_last() =~= x + y2);
        assert((x + y).last() == y.last());
        assert((split_lines(x).last() + y2).push(y.last()) =~= split_lines(x).last() + y);
        let p = split_lines(x + y2);
        assert(p.update(p.len() - 1, p.last().push(y.last())) =~= split_lines(x).update(
            split_lines(x).len() - 1,
            split_lines(x).last() + y,
        ));
    }
}

/// A newline closes the last line and opens an empty one.
pub proof fn lemma_split_lines_newline(x: Seq<char>)
    ensures
        split_lines(x.push('\n')) == split_lines(x).push(Seq::empty()),
{
    assert(x.push('\n').drop_last() =~= x);
}

/// Text with no newline is one line.
pub proof fn lemma_split_lines_single(y: Seq<char>)
    requires
        forall|i: int| 0 <= i < y.len() ==> #[trigger] y[i] != '\n',
    ensures
        split_lines(y) == seq![y],
{
    lemma_split_lines_extend(Seq::empty(), y);
    assert(Seq::<char>::empty() + y =~= y);
    assert(Seq::<char>::empty() + y =~= y);
    assert(seq![Seq::<char>::empty()].update(0, Seq::<char>::empty() + y) =~= seq![y]);
}

/// With no `#` in it, nothing is cut.
pub proof fn lemma_before_hash_none(s: Seq<char>)
    requires
        forall|i: int| 0 <= i < s.len() ==> #[trigger] s[i] != '#',
    ensures
        before_hash(s) == s,
    decreases s.len(),
{
    if s.len() > 0 {
        lemma_before_hash_none(s.drop_first());
        assert(seq![s[0]] + s.drop_first() =~= s);
    }
}

/// Everything from the first `#` on is cut: a line without `#`, followed by
/// `#` and anything at all, keeps exactly that line.
pub proof fn lemma_comment_is_cut(l: Seq<char>, c: Seq<char>)
    requires
        forall|i: int| 0 <= i < l.len() ==> #[trigger] l[i] != '#',
    ensures
        before_hash(l + seq!['#'] + c) == l,
    decreases l.len(),
{
    let s = l + seq!['#'] + c;
    if l.len() == 0 {
        assert(s[0] == '#');
    } else {
        assert(s[0] == l[0]);
        assert(s.drop_first() =~= l.drop_first() + seq!['#'] + c);
        assert forall|i: int| 0 <= i < l.drop_first().len() implies #[trigger] l.drop_first()[i] != '#' by {
            assert(l.drop_first()[i] == l[i + 1]);
        }
        lemma_comment_is_cut(l.drop_first(), c);
        assert(seq![l[0]] + l.drop_first() =~= l);
    }
}

/// Text that starts and ends with non-whitespace trims to itself.
pub proof fn lemma_trim_none(s: Seq<char>)
    requires
        s.len() > 0,
        !is_ws(s[0]),
        !is_ws(s.last()),
    ensures
        trim(s) == s,
{
}

/// Appending a whitespace-free, non-empty run after whitespace (or at the
/// start) adds it as one more word.
pub proof fn lemma_words_append_word(x: Seq<char>, y: Seq<char>)
    requires
        x.len() == 0 || is_ws(x.last()),
        y.len() > 0,
        forall|i: int| 0 <= i < y.len() ==> !is_ws(#[trigger] y[i]),
    ensures
        words(x + y) == words(x).push(y),
    decreases y.len(),
{
    if y.len() == 1 {
        assert((x + y).drop_last() =~= x);
        assert(seq![y[0]] =~= y);
        if x.len() > 0 {
            assert((x + y)[(x + y).len() - 2] == x.last());
        }
    } else {
        let y2 = y.drop_last();
        assert forall|i: int| 0 <= i < y2.len() implies !is_ws(#[trigger] y2[i]) by {
            assert(y2[i] == y[i]);
        }
        lemma_words_append_word(x, y2);
        assert((x + y).drop_last() =~= x + y2);
        assert((x + y)[(x + y).len() - 2] == y2.last());
        assert(y2.push(y.last()) =~= y);
        assert(words(x).push(y2).update(words(x).len() as int, y2.push(y.last())) =~= words(x).push(y));
    }
}

/// A trailing space adds no word.
pub proof fn lemma_words_space(x: Seq<char>)
    ensures
        words(x.push(' ')) == words(x),
{
    assert(x.push(' ').drop_last() =~= x);
}

} // verus!
