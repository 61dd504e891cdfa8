//! Character-level string helpers shared by every module that parses or
//! renders text. Strings are reasoned about through their `Seq<char>` view.

use vstd::prelude::*;

verus! {

/// `String::push`: appends one character.
pub assume_specification[ String::push ](s: &mut String, c: char)
    ensures
        final(s)@ == old(s)@.push(c),
;

/// The characters of `s`, in order.
pub fn chars_of(s: &str) -> (out: Vec<char>)
    ensures
        out@ == s@,
{
    let n = s.unicode_len();
    let mut out: Vec<char> = Vec::new();
    let mut i: usize = 0;
    while i < n
        invariant
            n == s@.len(),
            i <= n,
            out@ == s@.subrange(0, i as int),
        decreases n - i,
    {
        let c = s.get_char(i);
        out.push(c);
        i = i + 1;
    }
    out
}

/// A string holding exactly the characters of `cs`.
pub fn string_from(cs: &[char]) -> (out: String)
    ensures
        out@ == cs@,
{
    let mut out = String::new();
    let mut i: usize = 0;
    while i < cs.len()
        invariant
            i <= cs@.len(),
            out@ == cs@.subrange(0, i as int),
        decreases cs@.len() - i,
    {
        out.push(cs[i]);
        i = i + 1;
    }
    out
}

} // verus!

verus! {

/// Strict lexicographic order on character sequences, by code point — the order
/// `str`'s `Ord` gives (UTF-8 byte order agrees with code-point order).
pub open spec fn seq_less(a: Seq<char>, b: Seq<char>) -> bool
    decreases a.len(),
{
    if a.len() == 0 {
        b.len() > 0
    } else if b.len() == 0 {
        false
    } else if a[0] != b[0] {
        a[0] < b[0]
    } else {
        seq_less(a.drop_first(), b.drop_first())
    }
}

/// `seq_less` is irreflexive.
pub proof fn lemma_seq_less_irreflexive(a: Seq<char>)
    ensures
        !seq_less(a, a),
    decreases a.len(),
{
    if a.len() > 0 {
        lemma_seq_less_irreflexive(a.drop_first());
    }
}

/// `seq_less` is total on distinct sequences, and asymmetric.
pub proof fn lemma_seq_less_total(a: Seq<char>, b: Seq<char>)
    ensures
        a != b ==> (seq_less(a, b) || seq_less(b, a)),
        !(seq_less(a, b) && seq_less(b, a)),
    decreases a.len(),
{
    if a.len() > 0 && b.len() > 0 {
        if a[0] == b[0] {
            lemma_seq_less_total(a.drop_first(), b.drop_first());
            if a.drop_first() == b.drop_first() {
                assert(a =~= seq![a[0]] + a.drop_first());
                assert(b =~= seq![b[0]] + b.drop_first());
            }
        }
    } else if a.len() == 0 && b.len() == 0 {
        assert(a =~= b);
    }
}

/// `seq_less` is transitive.
pub proof fn lemma_seq_less_transitive(a: Seq<char>, b: Seq<char>, c: Seq<char>)
    requires
        seq_less(a, b),
        seq_less(b, c),
    ensures
        seq_less(a, c),
    decreases a.len(),
{
    if a.len() > 0 && b.len() > 0 && c.len() > 0 {
        if a[0] == b[0] && b[0] == c[0] {
            lemma_seq_less_transitive(a.drop_first(), b.drop_first(), c.drop_first());
        } else if a[0] != c[0] {
        } else {
            // a[0] == c[0], so b[0] differs from both: contradiction in order
            assert(false);
        }
    }
}

/// The three outcomes of comparing two character sequences.
#[derive(PartialEq, Eq, Structural, Clone, Copy, Debug)]
pub enum Order {
    /// The first sorts before the second.
    Less,
    /// Same characters.
    Equal,
    /// The first sorts after the second.
    Greater,
}

/// Compare two character sequences lexicographically by code point.
pub fn compare_chars(a: &[char], b: &[char]) -> (r: Order)
    ensures
        r == Order::Less <==> seq_less(a@, b@),
        r == Order::Equal <==> a@ == b@,
        r == Order::Greater <==> seq_less(b@, a@),
{
    let mut i: usize = 0;
    while i < a.len() && i < b.len()
        invariant
            i <= a@.len(),
            i <= b@.len(),
            a@.subrange(0, i as int) == b@.subrange(0, i as int),
        decreases a@.len() - i,
    {
        if a[i] != b[i] {
            proof {
                lemma_seq_less_skip(a@, b@, i as int);
                lemma_seq_less_skip(b@, a@, i as int);
                lemma_seq_less_total(a@, b@);
            }
            if a[i] < b[i] {
                return Order::Less;
            } else {
                return Order::Greater;
            }
        }
        proof {
            assert(a@.subrange(0, i + 1) =~= a@.subrange(0, i as int).push(a@[i as int]));
            assert(b@.subrange(0, i + 1) =~= b@.subrange(0, i as int).push(b@[i as int]));
        }
        i = i + 1;
    }
    proof {
        lemma_seq_less_skip(a@, b@, i as int);
        lemma_seq_less_skip(b@, a@, i as int);
        lemma_seq_less_total(a@, b@);
        if a@.len() == b@.len() {
            assert(a@ =~= a@.subrange(0, i as int));
            assert(b@ =~= b@.subrange(0, i as int));
        }
    }
    if a.len() == b.len() {
        Order::Equal
    } else if a.len() < b.len() {
        Order::Less
    } else {
        Order::Greater
    }
}

/// Comparing after a shared prefix of length `i` is comparing the rests.
pub proof fn lemma_seq_less_skip(a: Seq<char>, b: Seq<char>, i: int)
    requires
        0 <= i <= a.len(),
        i <= b.len(),
        a.subrange(0, i) == b.subrange(0, i),
    ensures
        seq_less(a, b) == seq_less(a.subrange(i, a.len() as int), b.subrange(i, b.len() as int)),
    decreases i,
{
    if i > 0 {
        assert(a[0] == a.subrange(0, i)[0]);
        assert(b[0] == b.subrange(0, i)[0]);
        assert(a.drop_first().subrange(0, i - 1) =~= a.subrange(0, i).drop_first());
        assert(b.drop_first().subrange(0, i - 1) =~= b.subrange(0, i).drop_first());
        lemma_seq_less_skip(a.drop_first(), b.drop_first(), i - 1);
        assert(a.drop_first().subrange(i - 1, a.len() - 1) =~= a.subrange(i, a.len() as int));
        assert(b.drop_first().subrange(i - 1, b.len() - 1) =~= b.subrange(i, b.len() as int));
    } else {
        assert(a.subrange(0, a.len() as int) =~= a);
        assert(b.subrange(0, b.len() as int) =~= b);
    }
}

/// Compare two strings lexicographically.
pub fn compare_str(a: &str, b: &str) -> (r: Order)
    ensures
        r == Order::Less <==> seq_less(a@, b@),
        r == Order::Equal <==> a@ == b@,
        r == Order::Greater <==> seq_less(b@, a@),
{
    let ca = chars_of(a);
    let cb = chars_of(b);
    compare_chars(ca.as_slice(), cb.as_slice())
}

/// Whether two strings hold the same characters.
pub fn str_eq(a: &str, b: &str) -> (r: bool)
    ensures
        r == (a@ == b@),
{
    compare_str(a, b) == Order::Equal
}

/// Whether `p` is a prefix of `s`.
pub open spec fn seq_starts_with(s: Seq<char>, p: Seq<char>) -> bool {
    p.len() <= s.len() && s.subrange(0, p.len() as int) == p
}

/// Whether `p` occurs in `s` starting at position `i`.
pub open spec fn occurs_at(s: Seq<char>, p: Seq<char>, i: int) -> bool {
    0 <= i && i + p.len() <= s.len() && s.subrange(i, i + p.len()) == p
}

/// Whether `p` occurs anywhere in `s`.
pub open spec fn seq_contains_seq(s: Seq<char>, p: Seq<char>) -> bool {
    exists|i: int| occurs_at(s, p, i)
}

/// Whether `p` occurs in `s` at position `i`.
pub fn matches_at(s: &[char], p: &[char], i: usize) -> (r: bool)
    ensures
        r == occurs_at(s@, p@, i as int),
{
    let n = s.len();
    if i > n || p.len() > n - i {
        return false;
    }
    let mut j: usize = 0;
    while j < p.len()
        invariant
            n == s@.len(),
            i + p@.len() <= s@.len(),
            j <= p@.len(),
            forall|k: int| 0 <= k < j ==> s@[i + k] == p@[k],
        decreases p@.len() - j,
    {
        assert(i + j < s@.len());
        if s[i + j] != p[j] {
            proof {
                assert(s@.subrange(i as int, i + p@.len())[j as int] != p@[j as int]);
            }
            return false;
        }
        j = j + 1;
    }
    proof {
        assert(s@.subrange(i as int, i + p@.len()) =~= p@);
    }
    true
}

/// Whether `s` starts with `p`.
pub fn starts_with_chars(s: &[char], p: &[char]) -> (r: bool)
    ensures
        r == seq_starts_with(s@, p@),
{
    matches_at(s, p, 0)
}

/// The first position at or after `from` where `p` occurs in `s`.
pub fn find_from(s: &[char], p: &[char], from: usize) -> (r: Option<usize>)
    requires
        from <= s@.len(),
    ensures
        match r {
            Some(i) => from <= i && occurs_at(s@, p@, i as int) && forall|k: int|
                from <= k < i ==> !occurs_at(s@, p@, k),
            None => forall|k: int| from <= k ==> !occurs_at(s@, p@, k),
        },
{
    let mut i = from;
    loop
        invariant
            from <= i,
            i <= s@.len(),
            forall|k: int| from <= k < i ==> !occurs_at(s@, p@, k),
        decreases s@.len() - i,
    {
        if matches_at(s, p, i) {
            return Some(i);
        }
        if i >= s.len() {
            proof {
                assert forall|k: int| from <= k implies !occurs_at(s@, p@, k) by {
                    if k > i && p@.len() >= 0 {
                        assert(!(k + p@.len() <= s@.len()));
                    }
                }
            }
            return None;
        }
        i = i + 1;
    }
}

/// Whether `p` occurs anywhere in `s`.
pub fn contains_chars(s: &[char], p: &[char]) -> (r: bool)
    ensures
        r == seq_contains_seq(s@, p@),
{
    match find_from(s, p, 0) {
        Some(_) => true,
        None => false,
    }
}

/// Whether the string `s` contains `p`.
pub fn str_contains(s: &str, p: &str) -> (r: bool)
    ensures
        r == seq_contains_seq(s@, p@),
{
    let cs = chars_of(s);
    let cp = chars_of(p);
    contains_chars(cs.as_slice(), cp.as_slice())
}

/// Whether the string `s` starts with `p`.
pub fn str_starts_with(s: &str, p: &str) -> (r: bool)
    ensures
        r == seq_starts_with(s@, p@),
{
    let cs = chars_of(s);
    let cp = chars_of(p);
    starts_with_chars(cs.as_slice(), cp.as_slice())
}

/// The characters of `s` from position `from` on.
pub fn str_skip(s: &str, from: usize) -> (r: String)
    requires
        from <= s@.len(),
    ensures
        r@ == s@.skip(from as int),
{
    let n = s.unicode_len();
    let mut out = String::new();
    let mut i: usize = from;
    while i < n
        invariant
            n == s@.len(),
            from <= i <= n,
            out@ == s@.subrange(from as int, i as int),
        decreases n - i,
    {
        let c = s.get_char(i);
        out.push(c);
        i = i + 1;
    }
    out
}

/// Append copies of `v` to `out`.
pub fn extend_strings(out: &mut Vec<String>, v: &[String])
    ensures
        views_of(final(out)@) == views_of(old(out)@) + views_of(v@),
{
    let ghost start = views_of(out@);
    let mut i: usize = 0;
    while i < v.len()
        invariant
            i <= v@.len(),
            views_of(out@) == start + views_of(v@).take(i as int),
        decreases v@.len() - i,
    {
        let ghost prev = out@;
        out.push(copy_str(v[i].as_str()));
        proof {
            assert(views_of(out@) =~= views_of(prev).push(v@[i as int]@));
            assert(views_of(v@).take(i + 1) =~= views_of(v@).take(i as int).push(v@[i as int]@));
            assert(views_of(out@) =~= start + views_of(v@).take(i + 1));
        }
        i = i + 1;
    }
    proof {
        assert(views_of(v@).take(v@.len() as int) =~= views_of(v@));
    }
}

/// A fresh string equal to `s`.
pub fn copy_str(s: &str) -> (r: String)
    ensures
        r@ == s@,
{
    s.to_owned()
}

/// The concatenation of `a` and `b`.
pub fn concat_str(a: &str, b: &str) -> (r: String)
    ensures
        r@ == a@ + b@,
{
    let mut out = a.to_owned();
    out.append(b);
    out
}

/// The views of a list of strings.
pub open spec fn views_of(v: Seq<String>) -> Seq<Seq<char>> {
    v.map_values(|s: String| s@)
}

/// A fresh copy of a list of strings.
pub fn copy_strings(v: &[String]) -> (r: Vec<String>)
    ensures
        views_of(r@) == views_of(v@),
{
    let mut out: Vec<String> = Vec::new();
    let mut i: usize = 0;
    while i < v.len()
        invariant
            i <= v@.len(),
            out@.len() == i,
            forall|k: int| 0 <= k < i ==> (#[trigger] out@[k])@ == v@[k]@,
        decreases v@.len() - i,
    {
        out.push(copy_str(v[i].as_str()));
        i = i + 1;
    }
    proof {
        assert(views_of(out@) =~= views_of(v@));
    }
    out
}

/// Owned copies of a list of string slices.
pub fn own_strings(v: &[&str]) -> (r: Vec<String>)
    ensures
        views_of(r@) == v@.map_values(|s: &str| s@),
{
    let mut out: Vec<String> = Vec::new();
    let mut i: usize = 0;
    while i < v.len()
        invariant
            i <= v@.len(),
            out@.len() == i,
            forall|k: int| 0 <= k < i ==> (#[trigger] out@[k])@ == v@[k]@,
        decreases v@.len() - i,
    {
        out.push(copy_str(v[i]));
        i = i + 1;
    }
    proof {
        assert(views_of(out@) =~= v@.map_values(|s: &str| s@));
    }
    out
}

} // verus!
