//! Key-sorted associations and sorted sets of strings — the canonical
//! in-memory form of every keyed collection in the identity model, so that a
//! collection's identity depends only on its contents, never on insertion order.

use vstd::prelude::*;

use crate::text::{compare_str, lemma_seq_less_irreflexive, lemma_seq_less_total, lemma_seq_less_transitive, seq_less, str_eq, Order};

verus! {

/// Keys strictly increasing — sorted, and no key twice.
pub open spec fn keys_sorted<V>(s: Seq<(Seq<char>, V)>) -> bool {
    forall|i: int, j: int| 0 <= i < j < s.len() ==> seq_less(#[trigger] s[i].0, #[trigger] s[j].0)
}

/// The sorted association with `(k, v)` added, replacing any entry for `k`.
pub open spec fn insert_sorted<V>(s: Seq<(Seq<char>, V)>, k: Seq<char>, v: V) -> Seq<
    (Seq<char>, V),
>
    decreases s.len(),
{
    if s.len() == 0 {
        seq![(k, v)]
    } else if s[0].0 == k {
        seq![(k, v)] + s.drop_first()
    } else if seq_less(k, s[0].0) {
        seq![(k, v)] + s
    } else {
        seq![s[0]] + insert_sorted(s.drop_first(), k, v)
    }
}

/// The value associated with `k`, if any (first match).
pub open spec fn lookup<V>(s: Seq<(Seq<char>, V)>, k: Seq<char>) -> Option<V>
    decreases s.len(),
{
    if s.len() == 0 {
        None
    } else if s[0].0 == k {
        Some(s[0].1)
    } else {
        lookup(s.drop_first(), k)
    }
}

/// The exec association viewed through its keys' and values' views.
pub open spec fn kv_view<V: View>(s: Seq<(String, V)>) -> Seq<(Seq<char>, V::V)> {
    s.map_values(|p: (String, V)| (p.0@, p.1@))
}

/// Every key of `s` sorts strictly above `k`.
pub open spec fn all_above<V>(s: Seq<(Seq<char>, V)>, k: Seq<char>) -> bool {
    forall|i: int| 0 <= i < s.len() ==> seq_less(k, #[trigger] s[i].0)
}

proof fn lemma_drop_first_sorted<V>(s: Seq<(Seq<char>, V)>)
    requires
        keys_sorted(s),
        s.len() > 0,
    ensures
        keys_sorted(s.drop_first()),
        all_above(s.drop_first(), s[0].0),
{
    assert forall|i: int, j: int| 0 <= i < j < s.drop_first().len() implies seq_less(
        #[trigger] s.drop_first()[i].0,
        #[trigger] s.drop_first()[j].0,
    ) by {
        assert(s.drop_first()[i] == s[i + 1]);
        assert(s.drop_first()[j] == s[j + 1]);
    }
    assert forall|i: int| 0 <= i < s.drop_first().len() implies seq_less(
        s[0].0,
        #[trigger] s.drop_first()[i].0,
    ) by {
        assert(s.drop_first()[i] == s[i + 1]);
    }
}

proof fn lemma_cons_sorted<V>(x: (Seq<char>, V), s: Seq<(Seq<char>, V)>)
    requires
        keys_sorted(s),
        all_above(s, x.0),
    ensures
        keys_sorted(seq![x] + s),
{
    let t = seq![x] + s;
    assert forall|i: int, j: int| 0 <= i < j < t.len() implies seq_less(
        #[trigger] t[i].0,
        #[trigger] t[j].0,
    ) by {
        if i == 0 {
            assert(t[j] == s[j - 1]);
        } else {
            assert(t[i] == s[i - 1]);
            assert(t[j] == s[j - 1]);
        }
    }
}

/// Inserting keeps the keys sorted, adds nothing but `k`, and only replaces `k`.
pub proof fn lemma_insert_sorted<V>(s: Seq<(Seq<char>, V)>, k: Seq<char>, v: V)
    requires
        keys_sorted(s),
    ensures
        keys_sorted(insert_sorted(s, k, v)),
        lookup(insert_sorted(s, k, v), k) == Some(v),
        forall|q: Seq<char>| q != k ==> lookup(insert_sorted(s, k, v), q) == lookup(s, q),
        forall|q: Seq<char>|
            all_above(s, q) && seq_less(q, k) ==> all_above(#[trigger] insert_sorted(s, k, v), q),
    decreases s.len(),
{
    let r = insert_sorted(s, k, v);
    if s.len() == 0 {
        assert(keys_sorted(r));
        assert forall|q: Seq<char>| q != k implies lookup(r, q) == lookup(s, q) by {
            assert(r.drop_first() =~= Seq::<(Seq<char>, V)>::empty());
            assert(lookup(r.drop_first(), q) is None);
        }
    } else {
        lemma_drop_first_sorted(s);
        if s[0].0 == k {
            lemma_cons_sorted((k, v), s.drop_first());
            assert(r.drop_first() =~= s.drop_first());
            assert forall|q: Seq<char>|
                all_above(s, q) && seq_less(q, k) implies all_above(r, q) by {
                assert forall|i: int| 0 <= i < r.len() implies seq_less(q, #[trigger] r[i].0) by {
                    if i > 0 {
                        assert(r[i] == s[i]);
                    }
                }
            }
        } else if seq_less(k, s[0].0) {
            assert forall|i: int| 0 <= i < s.len() implies seq_less(k, #[trigger] s[i].0) by {
                if i > 0 {
                    lemma_seq_less_transitive(k, s[0].0, s[i].0);
                }
            }
            lemma_cons_sorted((k, v), s);
            assert(r.drop_first() =~= s);
            assert forall|q: Seq<char>| q != k implies lookup(r, q) == lookup(s, q) by {
                assert(lookup(r, q) == lookup(r.drop_first(), q));
            }
            assert forall|q: Seq<char>|
                all_above(s, q) && seq_less(q, k) implies all_above(r, q) by {
                assert forall|i: int| 0 <= i < r.len() implies seq_less(q, #[trigger] r[i].0) by {
                    if i > 0 {
                        assert(r[i] == s[i - 1]);
                    }
                }
            }
        } else {
            lemma_seq_less_total(k, s[0].0);
            let rest = insert_sorted(s.drop_first(), k, v);
            lemma_insert_sorted(s.drop_first(), k, v);
            assert(all_above(rest, s[0].0));
            lemma_cons_sorted(s[0], rest);
            assert(r.drop_first() =~= rest);
            assert forall|q: Seq<char>| q != k implies lookup(r, q) == lookup(s, q) by {
                assert(r[0] == s[0]);
                if s[0].0 != q {
                    assert(lookup(r, q) == lookup(rest, q));
                    assert(lookup(s, q) == lookup(s.drop_first(), q));
                }
            }
            assert forall|q: Seq<char>|
                all_above(s, q) && seq_less(q, k) implies all_above(r, q) by {
                assert forall|i: int| 0 <= i < r.len() implies seq_less(q, #[trigger] r[i].0) by {
                    if i > 0 {
                        assert(r[i] == rest[i - 1]);
                        lemma_seq_less_transitive(q, s[0].0, rest[i - 1].0);
                    }
                }
            }
        }
    }
}

/// Inserting two different keys gives the same association in either order.
pub proof fn lemma_insert_commutes<V>(
    s: Seq<(Seq<char>, V)>,
    k1: Seq<char>,
    v1: V,
    k2: Seq<char>,
    v2: V,
)
    requires
        k1 != k2,
    ensures
        insert_sorted(insert_sorted(s, k1, v1), k2, v2) == insert_sorted(
            insert_sorted(s, k2, v2),
            k1,
            v1,
        ),
    decreases s.len(),
{
    lemma_seq_less_total(k1, k2);
    if s.len() == 0 {
        let a = insert_sorted(insert_sorted(s, k1, v1), k2, v2);
        let b = insert_sorted(insert_sorted(s, k2, v2), k1, v1);
        assert(insert_sorted(s, k1, v1) == seq![(k1, v1)]);
        assert(insert_sorted(s, k2, v2) == seq![(k2, v2)]);
        assert(seq![(k1, v1)].drop_first() =~= Seq::<(Seq<char>, V)>::empty());
        assert(seq![(k2, v2)].drop_first() =~= Seq::<(Seq<char>, V)>::empty());
        let e = Seq::<(Seq<char>, V)>::empty();
        assert(insert_sorted(e, k1, v1) == seq![(k1, v1)]);
        assert(insert_sorted(e, k2, v2) == seq![(k2, v2)]);
        if seq_less(k1, k2) {
            assert(a == seq![(k1, v1)] + insert_sorted(e, k2, v2));
            assert(b == seq![(k1, v1)] + seq![(k2, v2)]);
        } else {
            assert(a == seq![(k2, v2)] + seq![(k1, v1)]);
            assert(b == seq![(k2, v2)] + insert_sorted(e, k1, v1));
        }
        assert(a =~= b);
    } else {
        let x = s[0];
        let rest = s.drop_first();
        lemma_seq_less_total(k1, x.0);
        lemma_seq_less_total(k2, x.0);
        let s1 = insert_sorted(s, k1, v1);
        let s2 = insert_sorted(s, k2, v2);
        let a = insert_sorted(s1, k2, v2);
        let b = insert_sorted(s2, k1, v1);
        if x.0 == k1 {
            assert(s1.drop_first() =~= rest);
            if seq_less(k2, k1) {
                assert(s2 == seq![(k2, v2)] + s);
                assert(s2.drop_first() =~= s);
                assert(b == seq![(k2, v2)] + insert_sorted(s, k1, v1));
                assert(a =~= b);
            } else {
                assert(s2 == seq![x] + insert_sorted(rest, k2, v2));
                assert(s2.drop_first() =~= insert_sorted(rest, k2, v2));
                assert(a =~= b);
            }
        } else if x.0 == k2 {
            assert(s2.drop_first() =~= rest);
            if seq_less(k1, k2) {
                assert(s1.drop_first() =~= s);
                assert(a =~= b);
            } else {
                assert(s1.drop_first() =~= insert_sorted(rest, k1, v1));
                assert(a =~= b);
            }
        } else if seq_less(k1, x.0) && seq_less(k2, x.0) {
            assert(s1.drop_first() =~= s);
            assert(s2.drop_first() =~= s);
            if seq_less(k1, k2) {
                assert(a == seq![(k1, v1)] + insert_sorted(s, k2, v2));
                assert(b == seq![(k1, v1)] + s2);
                assert(a =~= b);
            } else {
                assert(a =~= b);
            }
        } else if seq_less(k1, x.0) {
            // k2 after x
            assert(s1.drop_first() =~= s);
            assert(s2.drop_first() =~= insert_sorted(rest, k2, v2));
            lemma_seq_less_transitive(k1, x.0, k2);
            assert(insert_sorted(s, k2, v2) == seq![x] + insert_sorted(rest, k2, v2));
            assert(a =~= b);
        } else if seq_less(k2, x.0) {
            assert(s2.drop_first() =~= s);
            assert(s1.drop_first() =~= insert_sorted(rest, k1, v1));
            lemma_seq_less_transitive(k2, x.0, k1);
            assert(insert_sorted(s, k1, v1) == seq![x] + insert_sorted(rest, k1, v1));
            assert(a =~= b);
        } else {
            lemma_insert_commutes(rest, k1, v1, k2, v2);
            let r1 = insert_sorted(rest, k1, v1);
            let r2 = insert_sorted(rest, k2, v2);
            assert(s1.drop_first() =~= r1);
            assert(s2.drop_first() =~= r2);
            assert(a == seq![x] + insert_sorted(r1, k2, v2));
            assert(b == seq![x] + insert_sorted(r2, k1, v1));
        }
    }
}

proof fn lemma_insert_after_prefix<V>(s: Seq<(Seq<char>, V)>, k: Seq<char>, v: V, i: int)
    requires
        0 <= i <= s.len(),
        forall|j: int| 0 <= j < i ==> seq_less(#[trigger] s[j].0, k),
    ensures
        insert_sorted(s, k, v) == s.subrange(0, i) + insert_sorted(s.subrange(i, s.len() as int), k, v),
    decreases i,
{
    if i == 0 {
        assert(s.subrange(0, 0) + insert_sorted(s.subrange(0, s.len() as int), k, v) =~= insert_sorted(s, k, v)) by {
            assert(s.subrange(0, s.len() as int) =~= s);
        }
    } else {
        lemma_seq_less_irreflexive(k);
        lemma_seq_less_total(k, s[0].0);
        assert(s[0].0 != k);
        let t = s.drop_first();
        assert forall|j: int| 0 <= j < i - 1 implies seq_less(#[trigger] t[j].0, k) by {
            assert(t[j] == s[j + 1]);
        }
        lemma_insert_after_prefix(t, k, v, i - 1);
        assert(t.subrange(0, i - 1) =~= s.subrange(1, i));
        assert(t.subrange(i - 1, t.len() as int) =~= s.subrange(i, s.len() as int));
        assert(s.subrange(0, i) =~= seq![s[0]] + s.subrange(1, i));
    }
}

/// Add `(k, val)` to a key-sorted association, replacing any entry for `k`.
pub fn kv_insert<V: View>(v: &mut Vec<(String, V)>, k: String, val: V)
    requires
        keys_sorted(kv_view(old(v)@)),
    ensures
        kv_view(final(v)@) == insert_sorted(kv_view(old(v)@), k@, val@),
        keys_sorted(kv_view(final(v)@)),
{
    let ghost s = kv_view(v@);
    proof {
        lemma_insert_sorted(s, k@, val@);
    }
    let mut i: usize = 0;
    while i < v.len()
        invariant
            s == kv_view(v@),
            s == kv_view(old(v)@),
            keys_sorted(s),
            keys_sorted(insert_sorted(s, k@, val@)),
            i <= v@.len(),
            forall|j: int| 0 <= j < i ==> seq_less(#[trigger] s[j].0, k@),
        decreases v@.len() - i,
    {
        let o = compare_str(v[i].0.as_str(), k.as_str());
        assert(s.len() == v@.len());
        assert(s[i as int] == (v@[i as int].0@, v@[i as int].1@));
        if o == Order::Equal {
            proof {
                lemma_insert_after_prefix(s, k@, val@, i as int);
                let t = s.subrange(i as int, s.len() as int);
                assert(t[0] == s[i as int]);
                assert(t.drop_first() =~= s.subrange(i + 1, s.len() as int));
                assert(insert_sorted(t, k@, val@) == seq![(k@, val@)] + t.drop_first());
            }
            v.set(i, (k, val));
            proof {
                assert(kv_view(v@) =~= s.subrange(0, i as int) + (seq![(k@, val@)] + s.subrange(i + 1, s.len() as int)));
            }
            return;
        } else if o == Order::Greater {
            proof {
                lemma_insert_after_prefix(s, k@, val@, i as int);
                lemma_seq_less_total(k@, s[i as int].0);
                let t = s.subrange(i as int, s.len() as int);
                assert(t[0] == s[i as int]);
                assert(insert_sorted(t, k@, val@) == seq![(k@, val@)] + t);
            }
            v.insert(i, (k, val));
            proof {
                assert(kv_view(v@) =~= s.subrange(0, i as int) + (seq![(k@, val@)] + s.subrange(i as int, s.len() as int)));
            }
            return;
        }
        i = i + 1;
    }
    proof {
        lemma_insert_after_prefix(s, k@, val@, i as int);
        assert(s.subrange(i as int, s.len() as int) =~= Seq::<(Seq<char>, V::V)>::empty());
    }
    v.push((k, val));
    proof {
        assert(kv_view(v@) =~= s + seq![(k@, val@)]);
    }
}

/// The value for `k` in a key-sorted association.
pub fn kv_get<'a, V: View>(v: &'a Vec<(String, V)>, k: &str) -> (r: Option<&'a V>)
    ensures
        match r {
            Some(x) => lookup(kv_view(v@), k@) == Some(x@),
            None => lookup(kv_view(v@), k@) is None,
        },
{
    let ghost s = kv_view(v@);
    assert(s.subrange(0, s.len() as int) =~= s);
    let mut i: usize = 0;
    while i < v.len()
        invariant
            s == kv_view(v@),
            i <= v@.len(),
            lookup(s, k@) == lookup(s.subrange(i as int, s.len() as int), k@),
        decreases v@.len() - i,
    {
        let ghost t = s.subrange(i as int, s.len() as int);
        assert(t[0] == (v@[i as int].0@, v@[i as int].1@));
        if str_eq(v[i].0.as_str(), k) {
            return Some(&v[i].1);
        }
        assert(t.drop_first() =~= s.subrange(i + 1, s.len() as int));
        i = i + 1;
    }
    None
}

} // verus!

verus! {

/// The keys present in an association.
pub open spec fn key_set<V>(s: Seq<(Seq<char>, V)>) -> Set<Seq<char>> {
    Set::new(|k: Seq<char>| lookup(s, k) is Some)
}

/// `lookup` finds exactly the keys listed.
pub proof fn lemma_lookup_some_iff<V>(s: Seq<(Seq<char>, V)>, k: Seq<char>)
    ensures
        (lookup(s, k) is Some) <==> (exists|i: int| 0 <= i < s.len() && s[i].0 == k),
        lookup(s, k) is Some ==> exists|i: int| 0 <= i < s.len() && s[i] == (k, lookup(s, k).unwrap()),
    decreases s.len(),
{
    if s.len() > 0 {
        lemma_lookup_some_iff(s.drop_first(), k);
        if s[0].0 != k {
            if exists|i: int| 0 <= i < s.len() && s[i].0 == k {
                let i = choose|i: int| 0 <= i < s.len() && s[i].0 == k;
                assert(s.drop_first()[i - 1].0 == k);
            }
            if lookup(s, k) is Some {
                let i = choose|i: int| 0 <= i < s.drop_first().len() && s.drop_first()[i] == (k, lookup(s, k).unwrap());
                assert(s[i + 1] == s.drop_first()[i]);
            }
        }
    }
}

/// The members among the first `i` of `e`.
pub open spec fn first_members(e: Seq<Seq<char>>, i: int) -> Set<Seq<char>> {
    Set::new(|x: Seq<char>| exists|k: int| 0 <= k < i && #[trigger] e[k] == x)
}

proof fn lemma_first_members_step(e: Seq<Seq<char>>, i: int)
    requires
        0 <= i < e.len(),
    ensures
        first_members(e, i + 1) == first_members(e, i).insert(e[i]),
{
    assert forall|x: Seq<char>| first_members(e, i + 1).contains(x) <==> first_members(e, i).insert(
        e[i],
    ).contains(x) by {
        if first_members(e, i + 1).contains(x) {
            let k = choose|k: int| 0 <= k < i + 1 && #[trigger] e[k] == x;
            if k < i {
                assert(first_members(e, i).contains(x));
            }
        }
        if first_members(e, i).contains(x) {
            let k = choose|k: int| 0 <= k < i && #[trigger] e[k] == x;
            assert(0 <= k < i + 1 && e[k] == x);
        }
        if x == e[i] {
            assert(0 <= i < i + 1 && e[i] == x);
        }
    }
    assert(first_members(e, i + 1) =~= first_members(e, i).insert(e[i]));
}

/// A set of strings kept sorted and free of duplicates — the form a
/// `BTreeSet<String>` iterates in.
#[derive(Debug)]
pub struct StrSet {
    entries: Vec<(String, ())>,
}

impl StrSet {
    #[verifier::type_invariant]
    spec fn sorted(&self) -> bool {
        keys_sorted(kv_view(self.entries@))
    }

    /// The members, in ascending order.
    pub closed spec fn elems(&self) -> Seq<Seq<char>> {
        kv_view(self.entries@).map_values(|p: (Seq<char>, ())| p.0)
    }

    /// An empty set.
    pub fn new() -> (r: StrSet)
        ensures
            r@ == Set::<Seq<char>>::empty(),
            r.elems().len() == 0,
    {
        let r = StrSet { entries: Vec::new() };
        assert(r@ =~= Set::<Seq<char>>::empty());
        r
    }

    /// Add `s`.
    pub fn insert(&mut self, s: &str)
        ensures
            final(self)@ == old(self)@.insert(s@),
    {
        proof {
            use_type_invariant(&*self);
        }
        let ghost before = kv_view(self.entries@);
        proof {
            lemma_insert_sorted(before, s@, ());
        }
        let mut entries = Vec::new();
        std::mem::swap(&mut entries, &mut self.entries);
        kv_insert(&mut entries, s.to_owned(), ());
        self.entries = entries;
        assert(self@ =~= old(self)@.insert(s@));
    }

    /// Add every member of `other`.
    pub fn extend(&mut self, other: &StrSet)
        ensures
            final(self)@ == old(self)@.union(other@),
    {
        proof {
            other.lemma_elems();
        }
        let ghost start = self@;
        let ghost e = other.elems();
        let n = other.len();
        let mut i: usize = 0;
        while i < n
            invariant
                n == e.len(),
                e == other.elems(),
                i <= n,
                self@ == start.union(first_members(e, i as int)),
            decreases n - i,
        {
            let t = other.get(i);
            self.insert(t);
            proof {
                lemma_first_members_step(e, i as int);
                assert(self@ =~= start.union(first_members(e, i + 1)));
            }
            i = i + 1;
        }
        proof {
            assert forall|x: Seq<char>| first_members(e, n as int).contains(x) <==> other@.contains(x) by {
                if other@.contains(x) {
                    assert(e.contains(x));
                    let k = choose|k: int| 0 <= k < e.len() && e[k] == x;
                    assert(first_members(e, n as int).contains(e[k]));
                }
            }
            assert(first_members(e, n as int) =~= other@);
        }
    }

    /// Whether `s` is a member.
    pub fn contains(&self, s: &str) -> (r: bool)
        ensures
            r == self@.contains(s@),
    {
        match kv_get(&self.entries, s) {
            Some(_) => true,
            None => false,
        }
    }

    /// How many members.
    pub fn len(&self) -> (r: usize)
        ensures
            r == self.elems().len(),
    {
        self.entries.len()
    }

    /// The `i`-th member in ascending order.
    pub fn get(&self, i: usize) -> (r: &str)
        requires
            i < self.elems().len(),
        ensures
            r@ == self.elems()[i as int],
    {
        self.entries[i].0.as_str()
    }

    /// A copy of this set.
    pub fn duplicate(&self) -> (r: StrSet)
        ensures
            r@ == self@,
            r.elems() == self.elems(),
    {
        proof {
            use_type_invariant(self);
        }
        let mut entries: Vec<(String, ())> = Vec::new();
        let mut i: usize = 0;
        while i < self.entries.len()
            invariant
                i <= self.entries@.len(),
                entries@.len() == i,
                kv_view(entries@) == kv_view(self.entries@).subrange(0, i as int),
            decreases self.entries@.len() - i,
        {
            let ghost prev = entries@;
            entries.push((self.entries[i].0.clone(), ()));
            assert(entries@ == prev.push(entries@[i as int]));
            assert(kv_view(entries@)[i as int] == kv_view(self.entries@)[i as int]);
            assert(kv_view(entries@) =~= kv_view(self.entries@).subrange(0, i + 1));
            i = i + 1;
        }
        assert(kv_view(entries@) =~= kv_view(self.entries@));
        let r = StrSet { entries };
        assert(r.elems() =~= self.elems());
        r
    }

    /// The members as fresh strings, in ascending order.
    pub fn to_vec(&self) -> (r: Vec<String>)
        ensures
            r@.map_values(|x: String| x@) == self.elems(),
    {
        let mut out: Vec<String> = Vec::new();
        let mut i: usize = 0;
        while i < self.entries.len()
            invariant
                i <= self.entries@.len(),
                out@.len() == i,
                out@.map_values(|x: String| x@) == self.elems().subrange(0, i as int),
            decreases self.entries@.len() - i,
        {
            let ghost prev = out@;
            out.push(self.entries[i].0.clone());
            assert(out@ == prev.push(out@[i as int]));
            assert(out@.map_values(|x: String| x@)[i as int] == self.elems()[i as int]);
            assert(out@.map_values(|x: String| x@) =~= self.elems().subrange(0, i + 1));
            i = i + 1;
        }
        assert(self.elems().subrange(0, i as int) =~= self.elems());
        out
    }

    /// Membership agrees with the ascending listing.
    pub proof fn lemma_elems(&self)
        ensures
            forall|k: Seq<char>| self@.contains(k) <==> self.elems().contains(k),
    {
        let s = kv_view(self.entries@);
        assert forall|k: Seq<char>| self@.contains(k) <==> self.elems().contains(k) by {
            lemma_lookup_some_iff(s, k);
            if self.elems().contains(k) {
                let i = choose|i: int| 0 <= i < self.elems().len() && self.elems()[i] == k;
                assert(s[i].0 == k);
            }
            if self@.contains(k) {
                let i = choose|i: int| 0 <= i < s.len() && s[i].0 == k;
                assert(self.elems()[i] == k);
            }
        }
    }
}

impl View for StrSet {
    type V = Set<Seq<char>>;

    closed spec fn view(&self) -> Set<Seq<char>> {
        key_set(kv_view(self.entries@))
    }
}

} // verus!
