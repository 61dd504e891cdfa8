//! Logical rewrite: a stable logical name that resolves to a different backing
//! name. An *exact* rule renames one identifier; a *prefix* rule moves a whole
//! namespace, carrying the remainder of each name over.
//!
//! Rewriting follows chains up to a hop budget and refuses, rather than
//! truncates, a walk that cycles, runs over budget or produces something that
//! is not an IRI. The reserved `urn:kernel:` namespace is never rewritten.
//! Each rule keeps live counters of the rewrites it performed, of those that
//! landed on nothing, and of the refusals it took part in.

use vstd::prelude::*;

use crate::decimal::{decimal, decimal_of};
use crate::decimal::{parse_unsigned, parse_usize};
use crate::iri::{iri_error_text, iri_parse_error, Iri};
use crate::tokens::{
    before_hash, before_hash_of, is_ws, lemma_before_hash_none, lemma_split_lines_extend,
    lemma_split_lines_newline, lemma_split_lines_single, lemma_trim_none, lemma_words_append_word,
    lemma_words_space, lines_of, split_lines, trim, trim_of, words, words_of,
};
use crate::text::{
    chars_of, compare_str, concat_str, copy_str, seq_contains_seq, seq_less, seq_starts_with,
    str_contains, str_eq, str_starts_with, string_from, Order,
};
use vstd::utf8::encode_utf8;

verus! {

/// How many rewrites one canonicalization follows before refusing.
pub const DEFAULT_MAX_HOPS: usize = 8;

/// The reserved kernel-behaviour namespace, never aliased away.
pub open spec fn kernel_ns() -> Seq<char> {
    "urn:kernel:"@
}

/// How a rule matches: the whole name, or a leading namespace.
#[derive(Clone, Copy, PartialEq, Eq, Debug, Structural)]
pub enum RuleKind {
    /// The target must equal `from` exactly.
    Exact,
    /// The target must start with `from`; the remainder is carried over.
    Prefix,
}

/// The keyword a kind is written with in the table's text form.
pub open spec fn kind_keyword(k: RuleKind) -> Seq<char> {
    match k {
        RuleKind::Exact => "exact"@,
        RuleKind::Prefix => "prefix"@,
    }
}

impl RuleKind {
    /// The keyword this kind is written with in the table's text form.
    pub fn keyword(&self) -> (r: &'static str)
        ensures
            r@ == kind_keyword(*self),
    {
        match self {
            RuleKind::Exact => "exact",
            RuleKind::Prefix => "prefix",
        }
    }
}

/// A rule as the specification sees it: its shape and its counters.
pub struct RuleView {
    pub kind: RuleKind,
    pub from: Seq<char>,
    pub to: Seq<char>,
    pub hops: u64,
    pub unresolved: u64,
    pub refused: u64,
}

/// One rewrite rule, with the live counters that make it observable.
#[derive(Debug)]
pub struct AliasRule {
    kind: RuleKind,
    from: String,
    to: String,
    hops: u64,
    unresolved: u64,
    refused: u64,
}

impl View for AliasRule {
    type V = RuleView;

    closed spec fn view(&self) -> RuleView {
        RuleView {
            kind: self.kind,
            from: self.from@,
            to: self.to@,
            hops: self.hops,
            unresolved: self.unresolved,
            refused: self.refused,
        }
    }
}

/// The length in bytes of the UTF-8 encoding of `s`, as `str::len` reports it.
pub open spec fn byte_len(s: Seq<char>) -> usize {
    encode_utf8(s).len() as usize
}

/// The rank of a kind at equal length: the keyword order, `exact` before
/// `prefix`.
pub open spec fn kind_rank(k: RuleKind) -> int {
    match k {
        RuleKind::Exact => 0,
        RuleKind::Prefix => 1,
    }
}

/// Whether rule `a` is strictly more specific than rule `b`: a longer `from`
/// (in bytes) first; at equal length an exact rule first; then by `from`.
pub open spec fn more_specific(a: RuleView, b: RuleView) -> bool {
    ||| byte_len(a.from) > byte_len(b.from)
    ||| byte_len(a.from) == byte_len(b.from) && kind_rank(a.kind) < kind_rank(b.kind)
    ||| byte_len(a.from) == byte_len(b.from) && a.kind == b.kind && seq_less(a.from, b.from)
}

/// Whether the rules stand most specific first (rules that tie keep their
/// declaration order).
pub open spec fn rules_ordered(s: Seq<RuleView>) -> bool {
    forall|i: int, j: int| 0 <= i < j < s.len() ==> !more_specific(#[trigger] s[j], #[trigger] s[i])
}

/// Where a new rule goes: before the first rule it is more specific than.
pub open spec fn insert_position(s: Seq<RuleView>, r: RuleView, from: int) -> int
    decreases s.len() - from,
{
    if from < 0 || from >= s.len() {
        s.len() as int
    } else if more_specific(r, s[from]) {
        from
    } else {
        insert_position(s, r, from + 1)
    }
}

/// The rules with `r` added in its place.
pub open spec fn insert_rule(s: Seq<RuleView>, r: RuleView) -> Seq<RuleView> {
    let p = insert_position(s, r, 0);
    s.take(p) + seq![r] + s.skip(p)
}

/// A fresh rule, counters at zero.
pub open spec fn fresh_rule(kind: RuleKind, from: Seq<char>, to: Seq<char>) -> RuleView {
    RuleView { kind, from, to, hops: 0, unresolved: 0, refused: 0 }
}

/// Applying one rule to `t`: the rewritten name, or `None` if it does not
/// match.
pub open spec fn apply_rule(r: RuleView, t: Seq<char>) -> Option<Seq<char>> {
    match r.kind {
        RuleKind::Exact => if t == r.from {
            Some(r.to)
        } else {
            None
        },
        RuleKind::Prefix => if seq_starts_with(t, r.from) {
            Some(r.to + t.skip(r.from.len() as int))
        } else {
            None
        },
    }
}

/// The first rule at or after `i` that matches `t`, and what it rewrites `t` to.
pub open spec fn step_from(rules: Seq<RuleView>, t: Seq<char>, i: int) -> Option<(int, Seq<char>)>
    decreases rules.len() - i,
{
    if i < 0 || i >= rules.len() {
        None
    } else {
        match apply_rule(rules[i], t) {
            Some(n) => Some((i, n)),
            None => step_from(rules, t, i + 1),
        }
    }
}

impl AliasRule {
    /// How this rule matches.
    pub fn kind(&self) -> (r: RuleKind)
        ensures
            r == self@.kind,
    {
        self.kind
    }

    /// The logical name (or namespace) being rewritten.
    pub fn from(&self) -> (r: &str)
        ensures
            r@ == self@.from,
    {
        self.from.as_str()
    }

    /// The backing name (or namespace) it is rewritten to.
    pub fn to(&self) -> (r: &str)
        ensures
            r@ == self@.to,
    {
        self.to.as_str()
    }

    /// How many rewrites this rule has performed.
    pub fn hops(&self) -> (r: u64)
        ensures
            r == self@.hops,
    {
        self.hops
    }

    /// How many of those rewrites landed on a target nothing was bound to.
    pub fn unresolved(&self) -> (r: u64)
        ensures
            r == self@.unresolved,
    {
        self.unresolved
    }

    /// How many refused canonicalizations this rule took part in.
    pub fn refused(&self) -> (r: u64)
        ensures
            r == self@.refused,
    {
        self.refused
    }

    /// Apply this rule to `target`, or `None` if it does not match.
    fn apply(&self, target: &str) -> (r: Option<String>)
        ensures
            match r {
                Some(n) => apply_rule(self@, target@) == Some(n@),
                None => apply_rule(self@, target@) is None,
            },
    {
        match self.kind {
            RuleKind::Exact => {
                if str_eq(target, self.from.as_str()) {
                    Some(copy_str(self.to.as_str()))
                } else {
                    None
                }
            },
            RuleKind::Prefix => {
                if str_starts_with(target, self.from.as_str()) {
                    let cs = chars_of(target);
                    let k = self.from.as_str().unicode_len();
                    let rest = string_from(cs.as_slice().split_at(k).1);
                    Some(concat_str(self.to.as_str(), rest.as_str()))
                } else {
                    None
                }
            },
        }
    }

    fn fresh(kind: RuleKind, from: &str, to: &str) -> (r: AliasRule)
        ensures
            r@ == fresh_rule(kind, from@, to@),
    {
        AliasRule { kind, from: copy_str(from), to: copy_str(to), hops: 0, unresolved: 0, refused: 0 }
    }
}

/// Whether `a` is strictly more specific than `b`, computed.
fn is_more_specific(a: &AliasRule, b: &AliasRule) -> (r: bool)
    ensures
        r == more_specific(a@, b@),
{
    let la = a.from.as_str().len();
    let lb = b.from.as_str().len();
    if la > lb {
        return true;
    }
    if la < lb {
        return false;
    }
    let ra: u8 = match a.kind {
        RuleKind::Exact => 0,
        RuleKind::Prefix => 1,
    };
    let rb: u8 = match b.kind {
        RuleKind::Exact => 0,
        RuleKind::Prefix => 1,
    };
    if ra != rb {
        return ra < rb;
    }
    match compare_str(a.from.as_str(), b.from.as_str()) {
        Order::Less => true,
        _ => false,
    }
}

/// The order on rules is a strict order: transitive and asymmetric.
pub proof fn lemma_more_specific_order(a: RuleView, b: RuleView, c: RuleView)
    ensures
        more_specific(a, b) && more_specific(b, c) ==> more_specific(a, c),
        !(more_specific(a, b) && more_specific(b, a)),
{
    crate::text::lemma_seq_less_irreflexive(a.from);
    crate::text::lemma_seq_less_total(a.from, b.from);
    if seq_less(a.from, b.from) && seq_less(b.from, c.from) {
        crate::text::lemma_seq_less_transitive(a.from, b.from, c.from);
    }
    if seq_less(a.from, b.from) && seq_less(b.from, a.from) {
        crate::text::lemma_seq_less_transitive(a.from, b.from, a.from);
    }
}

/// What `insert_position` finds: no earlier rule is less specific than `r`,
/// and the rule at the position (if any) is.
pub proof fn lemma_insert_position(s: Seq<RuleView>, r: RuleView, from: int)
    requires
        0 <= from <= s.len(),
    ensures
        from <= insert_position(s, r, from) <= s.len(),
        forall|i: int| from <= i < insert_position(s, r, from) ==> !more_specific(r, #[trigger] s[i]),
        insert_position(s, r, from) < s.len() ==> more_specific(r, s[insert_position(s, r, from)]),
    decreases s.len() - from,
{
    if from < s.len() && !more_specific(r, s[from]) {
        lemma_insert_position(s, r, from + 1);
    }
}

/// Adding a rule in its place keeps the rules most specific first.
pub proof fn lemma_insert_rule_ordered(s: Seq<RuleView>, r: RuleView)
    requires
        rules_ordered(s),
    ensures
        rules_ordered(insert_rule(s, r)),
        insert_rule(s, r).len() == s.len() + 1,
{
    let p = insert_position(s, r, 0);
    lemma_insert_position(s, r, 0);
    let t = insert_rule(s, r);
    assert forall|i: int, j: int| 0 <= i < j < t.len() implies !more_specific(#[trigger] t[j], #[trigger] t[i]) by {
        if j < p {
            assert(t[i] == s[i] && t[j] == s[j]);
        } else if j == p {
            assert(t[j] == r && t[i] == s[i]);
        } else if i < p {
            assert(t[i] == s[i] && t[j] == s[j - 1]);
            lemma_more_specific_order(s[j - 1], s[i], r);
            if p < s.len() {
                lemma_more_specific_order(s[j - 1], r, s[p]);
                lemma_more_specific_order(s[j - 1], s[p], s[i]);
                lemma_more_specific_order(r, s[p], s[i]);
            }
        } else if i == p {
            assert(t[i] == r && t[j] == s[j - 1]);
            lemma_more_specific_order(s[j - 1], r, s[p]);
            if j - 1 > p {
                assert(!more_specific(s[j - 1], s[p]));
            } else {
                lemma_more_specific_order(r, s[p], r);
            }
        } else {
            assert(t[i] == s[i - 1] && t[j] == s[j - 1]);
        }
    }
}

/// The table as the specification sees it.
pub struct TableView {
    pub rules: Seq<RuleView>,
    pub max_hops: usize,
}

/// The rewrite table: rules most specific first, plus the hop budget.
#[derive(Debug)]
pub struct AliasTable {
    rules: Vec<AliasRule>,
    max_hops: usize,
}

impl View for AliasTable {
    type V = TableView;

    closed spec fn view(&self) -> TableView {
        TableView { rules: self.rules@.map_values(|r: AliasRule| r@), max_hops: self.max_hops }
    }
}

impl AliasTable {
    #[verifier::type_invariant]
    spec fn well_ordered(&self) -> bool {
        &&& rules_ordered(self.rules@.map_values(|r: AliasRule| r@))
        &&& self.max_hops >= 1
    }

    /// An empty table with the default hop budget.
    pub fn new() -> (r: AliasTable)
        ensures
            r@.rules == Seq::<RuleView>::empty(),
            r@.max_hops == DEFAULT_MAX_HOPS,
    {
        let r = AliasTable { rules: Vec::new(), max_hops: DEFAULT_MAX_HOPS };
        assert(r@.rules =~= Seq::<RuleView>::empty());
        r
    }

    /// Rewrite the single name `from` to `to` (builder).
    pub fn exact(self, from: &str, to: &str) -> (r: AliasTable)
        ensures
            r@.rules == insert_rule(self@.rules, fresh_rule(RuleKind::Exact, from@, to@)),
            r@.max_hops == self@.max_hops,
    {
        self.rule(RuleKind::Exact, from, to)
    }

    /// Rewrite every name under the namespace `from` to the same name under
    /// `to` (builder).
    pub fn prefix(self, from: &str, to: &str) -> (r: AliasTable)
        ensures
            r@.rules == insert_rule(self@.rules, fresh_rule(RuleKind::Prefix, from@, to@)),
            r@.max_hops == self@.max_hops,
    {
        self.rule(RuleKind::Prefix, from, to)
    }

    fn rule(self, kind: RuleKind, from: &str, to: &str) -> (r: AliasTable)
        ensures
            r@.rules == insert_rule(self@.rules, fresh_rule(kind, from@, to@)),
            r@.max_hops == self@.max_hops,
    {
        proof {
            use_type_invariant(&self);
        }
        let new_rule = AliasRule::fresh(kind, from, to);
        let ghost s = self@.rules;
        let ghost nr = new_rule@;
        let AliasTable { rules: mut rules, max_hops } = self;
        assert(rules@.map_values(|r: AliasRule| r@) == s);
        let mut p: usize = 0;
        while p < rules.len()
            invariant
                p <= rules@.len(),
                nr == new_rule@,
                rules@.map_values(|r: AliasRule| r@) == s,
                insert_position(s, nr, 0) == insert_position(s, nr, p as int),
            ensures
                p <= rules@.len(),
                rules@.map_values(|r: AliasRule| r@) == s,
                insert_position(s, nr, 0) == p,
            decreases rules@.len() - p,
        {
            assert(rules@[p as int]@ == s[p as int]);
            if is_more_specific(&new_rule, &rules[p]) {
                break ;
            }
            p = p + 1;
        }
        proof {
            lemma_insert_rule_ordered(s, nr);
        }
        rules.insert(p, new_rule);
        proof {
            assert(rules@.map_values(|r: AliasRule| r@) =~= insert_rule(s, nr));
        }
        AliasTable { rules, max_hops }
    }

    /// Set the hop budget (builder); `0` is clamped to `1`.
    pub fn with_max_hops(self, hops: usize) -> (r: AliasTable)
        ensures
            r@.rules == self@.rules,
            r@.max_hops == (if hops == 0 {
                1
            } else {
                hops
            }),
    {
        proof {
            use_type_invariant(&self);
        }
        let AliasTable { rules, max_hops: _ } = self;
        let m = if hops == 0 {
            1
        } else {
            hops
        };
        AliasTable { rules, max_hops: m }
    }

    /// The hop budget.
    pub fn max_hops(&self) -> (r: usize)
        ensures
            r == self@.max_hops,
            r >= 1,
    {
        proof {
            use_type_invariant(self);
        }
        self.max_hops
    }

    /// The rules, most specific first.
    pub fn rules(&self) -> (r: &[AliasRule])
        ensures
            r@.map_values(|x: AliasRule| x@) == self@.rules,
            rules_ordered(self@.rules),
    {
        proof {
            use_type_invariant(self);
        }
        self.rules.as_slice()
    }

    /// Whether the table holds no rules.
    pub fn is_empty(&self) -> (r: bool)
        ensures
            r == (self@.rules.len() == 0),
    {
        self.rules.len() == 0
    }
}

/// A completed rewrite, as the specification sees it.
pub struct HopView {
    pub logical: Seq<char>,
    pub canonical: Seq<char>,
    pub rules: Seq<usize>,
}

/// A refused rewrite, as the specification sees it.
pub struct RefusalView {
    pub logical: Seq<char>,
    pub reason: Seq<char>,
    pub trail: Seq<Seq<char>>,
    pub rules: Seq<usize>,
}

/// The outcome of canonicalizing one target, as the specification sees it.
pub enum CanonicalView {
    Direct,
    Aliased(HopView),
    Refused(RefusalView),
}

/// A completed rewrite: the name the caller used, the name it resolves to, and
/// the rules it travelled through.
#[derive(Clone, Debug)]
pub struct AliasHop {
    logical: Iri,
    canonical: Iri,
    rules: Vec<usize>,
}

impl View for AliasHop {
    type V = HopView;

    closed spec fn view(&self) -> HopView {
        HopView { logical: self.logical@, canonical: self.canonical@, rules: self.rules@ }
    }
}

/// The form of a hop carried in a trace note and a denial message.
pub open spec fn hop_text(h: HopView) -> Seq<char> {
    h.logical + " -> "@ + h.canonical
}

impl AliasHop {
    /// A rewrite a space performed and reported itself; it carries no rules.
    pub fn reported(logical: Iri, canonical: Iri) -> (r: AliasHop)
        ensures
            r@.logical == logical@,
            r@.canonical == canonical@,
            r@.rules == Seq::<usize>::empty(),
    {
        AliasHop { logical, canonical, rules: Vec::new() }
    }

    /// The name as the caller wrote it.
    pub fn logical(&self) -> (r: &Iri)
        ensures
            r@ == self@.logical,
    {
        &self.logical
    }

    /// The backing name it resolves to.
    pub fn canonical(&self) -> (r: &Iri)
        ensures
            r@ == self@.canonical,
    {
        &self.canonical
    }

    /// The indices of the rules applied, in order.
    pub fn rules(&self) -> (r: &[usize])
        ensures
            r@ == self@.rules,
    {
        self.rules.as_slice()
    }

    /// `logical -> canonical`.
    pub fn to_string(&self) -> (r: String)
        ensures
            r@ == hop_text(self@),
    {
        let a = concat_str(self.logical.as_str(), " -> ");
        concat_str(a.as_str(), self.canonical.as_str())
    }

    /// A copy of this hop.
    pub fn duplicate(&self) -> (r: AliasHop)
        ensures
            r@ == self@,
    {
        AliasHop {
            logical: self.logical.duplicate(),
            canonical: self.canonical.duplicate(),
            rules: self.rules.clone(),
        }
    }
}

/// A rewrite that could not be completed, and is therefore refused rather
/// than half-applied.
#[derive(Clone, Debug)]
pub struct AliasRefusal {
    /// The name the caller used.
    pub logical: Iri,
    /// Why the walk stopped: a cycle, the hop limit, or a malformed substitution.
    pub reason: String,
    /// Every name visited, in order.
    pub trail: Vec<String>,
    /// The rules that participated, for counter attribution.
    rules: Vec<usize>,
}

/// The views of a list of strings.
pub open spec fn strings_view(v: Seq<String>) -> Seq<Seq<char>> {
    v.map_values(|s: String| s@)
}

impl View for AliasRefusal {
    type V = RefusalView;

    closed spec fn view(&self) -> RefusalView {
        RefusalView {
            logical: self.logical@,
            reason: self.reason@,
            trail: strings_view(self.trail@),
            rules: self.rules@,
        }
    }
}

/// `a -> b -> c`: the names of a trail joined by arrows.
pub open spec fn join_arrows(t: Seq<Seq<char>>) -> Seq<char>
    decreases t.len(),
{
    if t.len() == 0 {
        Seq::empty()
    } else if t.len() == 1 {
        t[0]
    } else {
        join_arrows(t.drop_last()) + " -> "@ + t.last()
    }
}

/// `reason (a -> b -> c)`.
pub open spec fn refusal_text(f: RefusalView) -> Seq<char> {
    f.reason + " ("@ + join_arrows(f.trail) + ")"@
}

impl AliasRefusal {
    /// `reason (a -> b -> c)`.
    pub fn to_string(&self) -> (r: String)
        ensures
            r@ == refusal_text(self@),
    {
        let mut out = concat_str(self.reason.as_str(), " (");
        let mut i: usize = 0;
        while i < self.trail.len()
            invariant
                i <= self.trail@.len(),
                out@ == self.reason@ + " ("@ + join_arrows(strings_view(self.trail@).take(i as int)),
            decreases self.trail@.len() - i,
        {
            let ghost before = out@;
            if i > 0 {
                out.append(" -> ");
            }
            out.append(self.trail[i].as_str());
            proof {
                let t = strings_view(self.trail@);
                assert(t.take(i + 1).drop_last() =~= t.take(i as int));
                if i == 0 {
                    assert(join_arrows(t.take(0)) =~= Seq::<char>::empty());
                    assert(before + t[0] =~= out@);
                } else {
                    assert(before + " -> "@ + t[i as int] =~= out@);
                }
            }
            i = i + 1;
        }
        proof {
            assert(strings_view(self.trail@).take(self.trail@.len() as int) =~= strings_view(
                self.trail@,
            ));
        }
        out.append(")");
        out
    }

    /// The rules that participated.
    pub fn rules(&self) -> (r: &[usize])
        ensures
            r@ == self@.rules,
    {
        self.rules.as_slice()
    }
}

/// What a refused rewrite answers in place of a miss: `alias: ` and the
/// refusal.
pub open spec fn refused_message(f: RefusalView) -> Seq<char> {
    "alias: "@ + refusal_text(f)
}

/// The self-description of the endpoint that stands in for a refused
/// rewrite.
pub open spec fn refused_view(f: RefusalView) -> crate::describe::DescriptionView {
    crate::describe::DescriptionView {
        id: "alias-refused"@,
        title: "Alias rewrite refused"@,
        summary: refused_message(f),
        verbs: seq![crate::verb::Verb::Source, crate::verb::Verb::Meta],
        inputs: Seq::empty(),
        outputs: seq!["text/plain;charset=utf-8"@],
        kind: crate::describe::KindView::Endpoint,
        requires: Seq::empty(),
        actions: Seq::empty(),
    }
}

impl AliasRefusal {
    /// The error a refused rewrite answers with.
    pub fn message(&self) -> (r: String)
        ensures
            r@ == refused_message(self@),
    {
        let text = self.to_string();
        concat_str("alias: ", text.as_str())
    }

    /// The description of the endpoint that answers for a refused rewrite.
    pub fn description(&self) -> (r: crate::describe::Description)
        ensures
            r@ == refused_view(self@),
    {
        let summary = self.message();
        let r = crate::describe::Description::new("alias-refused").title("Alias rewrite refused").summary(
            summary.as_str(),
        ).verb(crate::verb::Verb::Source).verb(crate::verb::Verb::Meta).output("text/plain;charset=utf-8");
        assert(r@ =~= refused_view(self@));
        r
    }
}

/// The outcome of canonicalizing one target.
#[derive(Clone, Debug)]
pub enum Canonical {
    /// No rule matched: resolve under the name as given.
    Direct,
    /// Rewritten, terminating.
    Aliased(AliasHop),
    /// Deliberately refused.
    Refused(AliasRefusal),
}

impl View for Canonical {
    type V = CanonicalView;

    open spec fn view(&self) -> CanonicalView {
        match self {
            Canonical::Direct => CanonicalView::Direct,
            Canonical::Aliased(h) => CanonicalView::Aliased(h@),
            Canonical::Refused(f) => CanonicalView::Refused(f@),
        }
    }
}

impl Canonical {
    /// The name to resolve under, if the rewrite completed.
    pub fn canonical(&self) -> (r: Option<&Iri>)
        ensures
            match self@ {
                CanonicalView::Aliased(h) => r is Some && r->0@ == h.canonical,
                _ => r is None,
            },
    {
        match self {
            Canonical::Aliased(hop) => Some(hop.canonical()),
            _ => None,
        }
    }

    /// The hop, if one was taken.
    pub fn hop(&self) -> (r: Option<&AliasHop>)
        ensures
            match self@ {
                CanonicalView::Aliased(h) => r is Some && r->0@ == h,
                _ => r is None,
            },
    {
        match self {
            Canonical::Aliased(hop) => Some(hop),
            _ => None,
        }
    }
}

/// The refusal reason for a walk that ran out of hops.
pub open spec fn exceeded_reason(max: usize) -> Seq<char> {
    "alias chain exceeded "@ + decimal_of(max as nat) + " hops"@
}

/// The refusal reason for a rewrite that is not an IRI.
pub open spec fn invalid_rewrite_reason(next: Seq<char>) -> Seq<char> {
    "rewrite produced `"@ + next + "`, which is not a valid IRI"@
}

/// Walking a chain of rewrites from `current`, with `k` hops left: stop when no
/// rule matches; refuse a rewrite the budget has no hop left for, a malformed
/// rewrite, or a revisit.
pub open spec fn walk(
    rules: Seq<RuleView>,
    max: usize,
    logical: Seq<char>,
    current: Seq<char>,
    trail: Seq<Seq<char>>,
    applied: Seq<usize>,
    k: nat,
) -> CanonicalView
    decreases k,
{
    match step_from(rules, current, 0) {
        None => if applied.len() == 0 {
            CanonicalView::Direct
        } else {
            CanonicalView::Aliased(HopView { logical, canonical: current, rules: applied })
        },
        Some((i, next)) => if k == 0 {
            CanonicalView::Refused(
                RefusalView { logical, reason: exceeded_reason(max), trail, rules: applied },
            )
        } else {
            let applied2 = applied.push(i as usize);
            if iri_parse_error(next) is Some {
                CanonicalView::Refused(
                    RefusalView {
                        logical,
                        reason: invalid_rewrite_reason(next),
                        trail,
                        rules: applied2,
                    },
                )
            } else if trail.contains(next) {
                CanonicalView::Refused(
                    RefusalView {
                        logical,
                        reason: "alias cycle"@,
                        trail: trail.push(next),
                        rules: applied2,
                    },
                )
            } else {
                walk(rules, max, logical, next, trail.push(next), applied2, (k - 1) as nat)
            }
        },
    }
}

/// The outcome of canonicalizing `target` against `rules` with budget `max`.
pub open spec fn canonical_outcome(rules: Seq<RuleView>, max: usize, target: Seq<char>) -> CanonicalView {
    if seq_starts_with(target, kernel_ns()) {
        CanonicalView::Direct
    } else {
        walk(rules, max, target, target, seq![target], Seq::empty(), max as nat)
    }
}

/// How often `i` occurs in `s`.
pub open spec fn occurrences(s: Seq<usize>, i: int) -> nat
    decreases s.len(),
{
    if s.len() == 0 {
        0
    } else {
        occurrences(s.drop_last(), i) + if s.last() == i {
            1nat
        } else {
            0nat
        }
    }
}

/// A counter bumped `n` times, wrapping at `u64::MAX`.
pub open spec fn bumped(c: u64, n: nat) -> u64 {
    ((c + n) % 0x1_0000_0000_0000_0000) as u64
}

/// Which counter a bump touches.
#[derive(Clone, Copy, Debug)]
pub enum Counter {
    Hops,
    Unresolved,
    Refused,
}

/// The counter `which` of rule view `r`.
pub open spec fn counter_of(r: RuleView, which: Counter) -> u64 {
    match which {
        Counter::Hops => r.hops,
        Counter::Unresolved => r.unresolved,
        Counter::Refused => r.refused,
    }
}

/// `new` is `old` with counter `which` of each rule bumped once per
/// occurrence of its index in `idx`, and nothing else changed.
pub open spec fn bumped_rules(old: Seq<RuleView>, new: Seq<RuleView>, idx: Seq<usize>, which: Counter) -> bool {
    &&& new.len() == old.len()
    &&& forall|i: int|
        0 <= i < old.len() ==> {
            &&& (#[trigger] new[i]).kind == old[i].kind
            &&& new[i].from == old[i].from
            &&& new[i].to == old[i].to
            &&& new[i].hops == (if which is Hops {
                bumped(old[i].hops, occurrences(idx, i))
            } else {
                old[i].hops
            })
            &&& new[i].unresolved == (if which is Unresolved {
                bumped(old[i].unresolved, occurrences(idx, i))
            } else {
                old[i].unresolved
            })
            &&& new[i].refused == (if which is Refused {
                bumped(old[i].refused, occurrences(idx, i))
            } else {
                old[i].refused
            })
        }
}

/// `new` is `old` with the refusal counter of each rule named in `idx` bumped
/// once, however often it is named, and nothing else changed.
pub open spec fn refused_once(old: Seq<RuleView>, new: Seq<RuleView>, idx: Seq<usize>) -> bool {
    &&& new.len() == old.len()
    &&& forall|i: int|
        0 <= i < old.len() ==> {
            &&& (#[trigger] new[i]).kind == old[i].kind
            &&& new[i].from == old[i].from
            &&& new[i].to == old[i].to
            &&& new[i].hops == old[i].hops
            &&& new[i].unresolved == old[i].unresolved
            &&& new[i].refused == bumped(
                old[i].refused,
                if (exists|j: int| 0 <= j < idx.len() && idx[j] == i) {
                    1nat
                } else {
                    0nat
                },
            )
        }
}

/// How the counters move for an outcome: each rule's hops once per rewrite
/// it made, for a completed rewrite; each participating rule's refusals once,
/// for a refusal; nothing, for a direct name.
pub open spec fn counters_after(old: Seq<RuleView>, new: Seq<RuleView>, outcome: CanonicalView) -> bool {
    match outcome {
        CanonicalView::Direct => new == old,
        CanonicalView::Aliased(h) => bumped_rules(old, new, h.rules, Counter::Hops),
        CanonicalView::Refused(f) => refused_once(old, new, f.rules),
    }
}

proof fn lemma_bumped_step(c: u64, n: nat)
    ensures
        vstd::wrapping::u64_specs::wrapping_add(bumped(c, n), 1) == bumped(c, n + 1),
{
    let x = c + n;
    assert(0 <= x % 0x1_0000_0000_0000_0000 < 0x1_0000_0000_0000_0000) by (nonlinear_arith);
    if x % 0x1_0000_0000_0000_0000 + 1 == 0x1_0000_0000_0000_0000 {
        assert((x + 1) % 0x1_0000_0000_0000_0000 == 0) by (nonlinear_arith)
            requires
                x % 0x1_0000_0000_0000_0000 + 1 == 0x1_0000_0000_0000_0000,
        ;
    } else {
        assert((x + 1) % 0x1_0000_0000_0000_0000 == x % 0x1_0000_0000_0000_0000 + 1) by (nonlinear_arith)
            requires
                x % 0x1_0000_0000_0000_0000 + 1 < 0x1_0000_0000_0000_0000,
                x >= 0,
        ;
    }
}

/// Each index of `idx` once, in order of first mention.
fn distinct_indices(idx: &Vec<usize>) -> (r: Vec<usize>)
    ensures
        forall|j: int| 0 <= j < r@.len() ==> idx@.contains(#[trigger] r@[j]),
        forall|i: int| 0 <= i ==> occurrences(r@, i) == (if (exists|j: int| 0 <= j < idx@.len() && idx@[j] == i) {
            1nat
        } else {
            0nat
        }),
{
    let mut out: Vec<usize> = Vec::new();
    let mut k: usize = 0;
    while k < idx.len()
        invariant
            k <= idx@.len(),
            forall|j: int| 0 <= j < out@.len() ==> idx@.contains(#[trigger] out@[j]),
            forall|i: int| 0 <= i ==> occurrences(out@, i) == (if (exists|j: int| 0 <= j < k && idx@[j] == i) {
                1nat
            } else {
                0nat
            }),
        decreases idx@.len() - k,
    {
        let x = idx[k];
        let mut seen = false;
        let mut m: usize = 0;
        while m < k
            invariant
                m <= k < idx@.len(),
                x == idx@[k as int],
                seen == (exists|j: int| 0 <= j < m && idx@[j] == x),
            decreases k - m,
        {
            if idx[m] == x {
                seen = true;
            }
            m = m + 1;
        }
        let ghost before = out@;
        if !seen {
            out.push(x);
        }
        proof {
            assert(idx@.contains(idx@[k as int]));
            assert forall|i: int| 0 <= i implies occurrences(out@, i) == (if (exists|j: int| 0 <= j < k + 1 && idx@[j] == i) {
                1nat
            } else {
                0nat
            }) by {
                let old_has = exists|j: int| 0 <= j < k && idx@[j] == i;
                let new_has = exists|j: int| 0 <= j < k + 1 && idx@[j] == i;
                if old_has {
                    let j = choose|j: int| 0 <= j < k && idx@[j] == i;
                    assert(0 <= j < k + 1 && idx@[j] == i);
                }
                if i == x {
                    assert(0 <= k < k + 1 && idx@[k as int] == i);
                }
                if new_has && i != x {
                    let j = choose|j: int| 0 <= j < k + 1 && idx@[j] == i;
                    assert(j < k);
                    assert(old_has);
                }
                if !seen {
                    assert(out@.drop_last() =~= before);
                    assert(occurrences(out@, i) == occurrences(before, i) + (if x == i {
                        1nat
                    } else {
                        0nat
                    }));
                } else {
                    assert(out@ == before);
                    if i == x {
                        assert(old_has);
                    }
                }
            }
        }
        k = k + 1;
    }
    out
}

/// Whether `s` is one of the strings in `v`.
fn contains_string(v: &Vec<String>, s: &str) -> (r: bool)
    ensures
        r == strings_view(v@).contains(s@),
{
    let mut i: usize = 0;
    while i < v.len()
        invariant
            i <= v@.len(),
            forall|j: int| 0 <= j < i ==> (#[trigger] v@[j])@ != s@,
        decreases v@.len() - i,
    {
        if str_eq(v[i].as_str(), s) {
            proof {
                assert(strings_view(v@)[i as int] == s@);
            }
            return true;
        }
        i = i + 1;
    }
    proof {
        if strings_view(v@).contains(s@) {
            let j = choose|j: int| 0 <= j < strings_view(v@).len() && strings_view(v@)[j] == s@;
            assert(v@[j]@ == s@);
        }
    }
    false
}

impl AliasTable {
    /// The most specific rule matching `target`, applied once.
    fn step(&self, target: &str) -> (r: Option<(usize, String)>)
        ensures
            match r {
                Some((i, n)) => step_from(self@.rules, target@, 0) == Some((i as int, n@))
                    && i < self@.rules.len(),
                None => step_from(self@.rules, target@, 0) is None,
            },
    {
        let mut i: usize = 0;
        while i < self.rules.len()
            invariant
                i <= self@.rules.len(),
                step_from(self@.rules, target@, 0) == step_from(self@.rules, target@, i as int),
            decreases self@.rules.len() - i,
        {
            assert(self.rules@[i as int]@ == self@.rules[i as int]);
            match self.rules[i].apply(target) {
                Some(next) => {
                    return Some((i, next));
                },
                None => {},
            }
            i = i + 1;
        }
        None
    }

    /// Bump counter `which` of each rule named in `idx`, once per mention.
    fn bump(&mut self, idx: &Vec<usize>, which: Counter)
        requires
            forall|j: int| 0 <= j < idx@.len() ==> (#[trigger] idx@[j]) < old(self)@.rules.len(),
        ensures
            bumped_rules(old(self)@.rules, final(self)@.rules, idx@, which),
            final(self)@.max_hops == old(self)@.max_hops,
    {
        proof {
            use_type_invariant(&*self);
        }
        let ghost old_rules = self@.rules;
        let mut rules: Vec<AliasRule> = Vec::new();
        std::mem::swap(&mut rules, &mut self.rules);
        assert(rules@.map_values(|r: AliasRule| r@) == old_rules);
        let mut k: usize = 0;
        while k < idx.len()
            invariant
                k <= idx@.len(),
                forall|j: int| 0 <= j < idx@.len() ==> (#[trigger] idx@[j]) < old_rules.len(),
                bumped_rules(old_rules, rules@.map_values(|r: AliasRule| r@), idx@.take(k as int), which),
            decreases idx@.len() - k,
        {
            let j = idx[k];
            let ghost before = rules@.map_values(|r: AliasRule| r@);
            match which {
                Counter::Hops => {
                    let h = rules[j].hops.wrapping_add(1);
                    rules[j].hops = h;
                },
                Counter::Unresolved => {
                    let h = rules[j].unresolved.wrapping_add(1);
                    rules[j].unresolved = h;
                },
                Counter::Refused => {
                    let h = rules[j].refused.wrapping_add(1);
                    rules[j].refused = h;
                },
            }
            proof {
                let t = idx@.take(k + 1);
                let p = idx@.take(k as int);
                assert(t.drop_last() =~= p);
                let after = rules@.map_values(|r: AliasRule| r@);
                let n = occurrences(p, j as int);
                lemma_bumped_step(old_rules[j as int].hops, n);
                lemma_bumped_step(old_rules[j as int].unresolved, n);
                lemma_bumped_step(old_rules[j as int].refused, n);
                assert(after.len() == old_rules.len());
                assert forall|i: int| 0 <= i < old_rules.len() implies {
                    &&& (#[trigger] after[i]).kind == old_rules[i].kind
                    &&& after[i].from == old_rules[i].from
                    &&& after[i].to == old_rules[i].to
                    &&& after[i].hops == (if which is Hops {
                        bumped(old_rules[i].hops, occurrences(t, i))
                    } else {
                        old_rules[i].hops
                    })
                    &&& after[i].unresolved == (if which is Unresolved {
                        bumped(old_rules[i].unresolved, occurrences(t, i))
                    } else {
                        old_rules[i].unresolved
                    })
                    &&& after[i].refused == (if which is Refused {
                        bumped(old_rules[i].refused, occurrences(t, i))
                    } else {
                        old_rules[i].refused
                    })
                } by {
                    assert(occurrences(t, i) == occurrences(p, i) + (if t.last() == i {
                        1nat
                    } else {
                        0nat
                    }));
                    if i != j {
                        assert(after[i] == before[i]);
                    } else {
                        assert(after[i].kind == before[i].kind);
                    }
                }
            }
            k = k + 1;
        }
        proof {
            assert(idx@.take(idx@.len() as int) =~= idx@);
            let after = rules@.map_values(|r: AliasRule| r@);
            assert forall|a: int, b: int| 0 <= a < b < after.len() implies !more_specific(
                #[trigger] after[b],
                #[trigger] after[a],
            ) by {
                assert(!more_specific(old_rules[b], old_rules[a]));
            }
        }
        self.rules = rules;
    }

    fn refuse(&mut self, logical: &Iri, reason: String, trail: Vec<String>, rules: Vec<usize>) -> (r:
        Canonical)
        requires
            forall|j: int| 0 <= j < rules@.len() ==> (#[trigger] rules@[j]) < old(self)@.rules.len(),
        ensures
            r@ == CanonicalView::Refused(
                RefusalView {
                    logical: logical@,
                    reason: reason@,
                    trail: strings_view(trail@),
                    rules: rules@,
                },
            ),
            refused_once(old(self)@.rules, final(self)@.rules, rules@),
            final(self)@.max_hops == old(self)@.max_hops,
    {
        let once = distinct_indices(&rules);
        proof {
            assert forall|j: int| 0 <= j < once@.len() implies (#[trigger] once@[j]) < old(self)@.rules.len() by {
                assert(rules@.contains(once@[j]));
                let m = choose|m: int| 0 <= m < rules@.len() && rules@[m] == once@[j];
                assert(rules@[m] < old(self)@.rules.len());
            }
        }
        self.bump(&once, Counter::Refused);
        proof {
            assert forall|i: int| 0 <= i < old(self)@.rules.len() implies occurrences(once@, i) == (
            if (exists|j: int| 0 <= j < rules@.len() && rules@[j] == i) {
                1nat
            } else {
                0nat
            }) by {}
        }
        Canonical::Refused(AliasRefusal { logical: logical.duplicate(), reason, trail, rules })
    }

    /// Resolve `target` to the name it should be resolved under, following
    /// chains and refusing cycles; bumps the counters of the rules involved.
    pub fn canonicalize(&mut self, target: &Iri) -> (r: Canonical)
        ensures
            r@ == canonical_outcome(old(self)@.rules, old(self)@.max_hops, target@),
            counters_after(old(self)@.rules, final(self)@.rules, r@),
            final(self)@.max_hops == old(self)@.max_hops,
            seq_starts_with(target@, kernel_ns()) ==> r@ is Direct,
    {
        proof {
            use_type_invariant(&*self);
        }
        if str_starts_with(target.as_str(), "urn:kernel:") {
            return Canonical::Direct;
        }
        let mut current = target.duplicate();
        let mut trail: Vec<String> = Vec::new();
        trail.push(copy_str(target.as_str()));
        let mut applied: Vec<usize> = Vec::new();
        let max = self.max_hops;
        let mut k: usize = 0;
        proof {
            assert(strings_view(trail@) =~= seq![target@]);
        }
        while k < max
            invariant
                self@ == old(self)@,
                max == self@.max_hops,
                k <= max,
                !seq_starts_with(target@, kernel_ns()),
                forall|j: int| 0 <= j < applied@.len() ==> (#[trigger] applied@[j]) < self@.rules.len(),
                canonical_outcome(self@.rules, max, target@) == walk(
                    self@.rules,
                    max,
                    target@,
                    current@,
                    strings_view(trail@),
                    applied@,
                    (max - k) as nat,
                ),
            decreases max - k,
        {
            match self.step(current.as_str()) {
                None => {
                    if applied.len() == 0 {
                        return Canonical::Direct;
                    }
                    self.bump(&applied, Counter::Hops);
                    return Canonical::Aliased(
                        AliasHop { logical: target.duplicate(), canonical: current, rules: applied },
                    );
                },
                Some((index, next)) => {
                    applied.push(index);
                    match Iri::parse(next.as_str()) {
                        Err(_) => {
                            let a = concat_str("rewrite produced `", next.as_str());
                            let reason = concat_str(a.as_str(), "`, which is not a valid IRI");
                            return self.refuse(target, reason, trail, applied);
                        },
                        Ok(next_iri) => {
                            let seen = contains_string(&trail, next_iri.as_str());
                            let ghost old_trail = strings_view(trail@);
                            trail.push(copy_str(next_iri.as_str()));
                            proof {
                                assert(strings_view(trail@) =~= old_trail.push(next@));
                            }
                            if seen {
                                return self.refuse(target, copy_str("alias cycle"), trail, applied);
                            }
                            current = next_iri;
                        },
                    }
                },
            }
            k = k + 1;
        }
        match self.step(current.as_str()) {
            None => {
                if applied.len() == 0 {
                    return Canonical::Direct;
                }
                self.bump(&applied, Counter::Hops);
                Canonical::Aliased(AliasHop { logical: target.duplicate(), canonical: current, rules: applied })
            },
            Some(_) => {
                let a = concat_str("alias chain exceeded ", decimal(max as u64).as_str());
                let reason = concat_str(a.as_str(), " hops");
                self.refuse(target, reason, trail, applied)
            },
        }
    }

    /// Record that a rewritten target resolved to nothing, against each rule
    /// the hop travelled through.
    pub fn record_unresolved(&mut self, hop: &AliasHop)
        requires
            forall|j: int|
                0 <= j < hop@.rules.len() ==> (#[trigger] hop@.rules[j]) < old(self)@.rules.len(),
        ensures
            bumped_rules(old(self)@.rules, final(self)@.rules, hop@.rules, Counter::Unresolved),
            final(self)@.max_hops == old(self)@.max_hops,
    {
        assert(hop.rules@ == hop@.rules);
        assert forall|j: int| 0 <= j < hop.rules@.len() implies (#[trigger] hop.rules@[j])
            < self@.rules.len() by {
            assert(hop@.rules[j] == hop.rules@[j]);
        }
        self.bump(&hop.rules, Counter::Unresolved);
    }
}

/// Whether scope `sc` mentions the `from` of some rule.
pub open spec fn names_a_rule(rules: Seq<RuleView>, sc: Seq<char>) -> bool {
    exists|i: int| 0 <= i < rules.len() && seq_contains_seq(sc, #[trigger] rules[i].from)
}

/// The scopes, in order, that mention a rewritten namespace.
pub open spec fn stale_scopes(rules: Seq<RuleView>, scopes: Seq<Seq<char>>) -> Seq<Seq<char>>
    decreases scopes.len(),
{
    if scopes.len() == 0 {
        Seq::empty()
    } else {
        let p = stale_scopes(rules, scopes.drop_last());
        if names_a_rule(rules, scopes.last()) {
            p.push(scopes.last())
        } else {
            p
        }
    }
}

/// One line of the text form, as the specification reads it.
pub enum LineView {
    Skip,
    MaxHops(usize),
    Rule(RuleKind, Seq<char>, Seq<char>),
    Bad(Seq<char>),
}

/// The complaint about a line that is none of the three forms.
pub open spec fn expected_message(content: Seq<char>) -> Seq<char> {
    "expected `exact <from> <to>`, `prefix <from> <to>` or `max-hops <n>`, got `"@ + content
        + "`"@
}

/// Reading one line: comments cut, whitespace trimmed, then one of
/// `max-hops <n>`, `exact <from> <to>`, `prefix <from> <to>`, or blank.
pub open spec fn line_outcome(line: Seq<char>) -> LineView {
    let content = trim(before_hash(line));
    let f = words(content);
    if content.len() == 0 {
        LineView::Skip
    } else if f.len() == 2 && f[0] == "max-hops"@ {
        match parse_unsigned(f[1], usize::MAX as nat) {
            Some(n) => LineView::MaxHops(n as usize),
            None => LineView::Bad("`"@ + f[1] + "` is not a hop count"@),
        }
    } else if f.len() == 3 && (f[0] == "exact"@ || f[0] == "prefix"@) {
        match iri_parse_error(f[1]) {
            Some(e) => LineView::Bad("from `"@ + f[1] + "`: "@ + iri_error_text(e)),
            None => match iri_parse_error(f[2]) {
                Some(e) => LineView::Bad("to `"@ + f[2] + "`: "@ + iri_error_text(e)),
                None => LineView::Rule(
                    if f[0] == "exact"@ {
                        RuleKind::Exact
                    } else {
                        RuleKind::Prefix
                    },
                    f[1],
                    f[2],
                ),
            },
        }
    } else {
        LineView::Bad(expected_message(content))
    }
}

/// Reading lines `i..` into `t`: the table, or the first bad line's 1-based
/// number and complaint.
pub open spec fn parse_lines(lines: Seq<Seq<char>>, i: int, t: TableView) -> Result<TableView, (nat, Seq<char>)>
    decreases lines.len() - i,
{
    if i < 0 || i >= lines.len() {
        Ok(t)
    } else {
        match line_outcome(lines[i]) {
            LineView::Skip => parse_lines(lines, i + 1, t),
            LineView::MaxHops(n) => parse_lines(
                lines,
                i + 1,
                TableView {
                    rules: t.rules,
                    max_hops: if n == 0 {
                        1
                    } else {
                        n
                    },
                },
            ),
            LineView::Rule(k, from, to) => parse_lines(
                lines,
                i + 1,
                TableView { rules: insert_rule(t.rules, fresh_rule(k, from, to)), max_hops: t.max_hops },
            ),
            LineView::Bad(d) => Err(((i + 1) as nat, d)),
        }
    }
}

/// Reading a whole table from its text form.
pub open spec fn parse_table(text: Seq<char>) -> Result<TableView, (nat, Seq<char>)> {
    parse_lines(
        split_lines(text),
        0,
        TableView { rules: Seq::empty(), max_hops: DEFAULT_MAX_HOPS },
    )
}

/// One rule written as a line of the text form.
pub open spec fn rule_line(r: RuleView) -> Seq<char> {
    kind_keyword(r.kind) + " "@ + r.from + " "@ + r.to + "\n"@
}

/// The rules written one per line.
pub open spec fn rules_text(rs: Seq<RuleView>) -> Seq<char>
    decreases rs.len(),
{
    if rs.len() == 0 {
        Seq::empty()
    } else {
        rules_text(rs.drop_last()) + rule_line(rs.last())
    }
}

/// The text form of a table: a `max-hops` line unless the budget is the
/// default, then the rules in order. Counters are not written.
pub open spec fn table_text(t: TableView) -> Seq<char> {
    (if t.max_hops != DEFAULT_MAX_HOPS {
        "max-hops "@ + decimal_of(t.max_hops as nat) + "\n"@
    } else {
        Seq::empty()
    }) + rules_text(t.rules)
}

/// An error parsing an alias table's text form.
#[derive(Clone, Debug)]
pub struct AliasParseError {
    /// The 1-based line number.
    pub line: usize,
    /// What was wrong with it.
    pub detail: String,
}

impl AliasParseError {
    /// `alias table line <n>: <detail>`.
    pub fn to_string(&self) -> (r: String)
        ensures
            r@ == "alias table line "@ + decimal_of(self.line as nat) + ": "@ + self.detail@,
    {
        let a = concat_str("alias table line ", decimal(self.line as u64).as_str());
        let b = concat_str(a.as_str(), ": ");
        concat_str(b.as_str(), self.detail.as_str())
    }
}

/// Whether `a` holds exactly the characters of `b`.
fn chars_are(a: &[char], b: &str) -> (r: bool)
    ensures
        r == (a@ == b@),
{
    let s = string_from(a);
    str_eq(s.as_str(), b)
}

/// Reading one line, computed.
fn read_line(line: &[char]) -> (r: Result<(Option<usize>, Option<(RuleKind, String, String)>), String>)
    ensures
        match r {
            Ok((None, None)) => line_outcome(line@) is Skip,
            Ok((Some(n), None)) => line_outcome(line@) == LineView::MaxHops(n),
            Ok((None, Some((k, f, t)))) => line_outcome(line@) == LineView::Rule(k, f@, t@),
            Ok((Some(_), Some(_))) => false,
            Err(d) => line_outcome(line@) == LineView::Bad(d@),
        },
{
    let cut = before_hash_of(line);
    let content = trim_of(cut.as_slice());
    if content.len() == 0 {
        return Ok((None, None));
    }
    let f = words_of(content.as_slice());
    if f.len() == 2 && chars_are(f[0].as_slice(), "max-hops") {
        let h = string_from(f[1].as_slice());
        match parse_usize(h.as_str()) {
            Some(n) => {
                return Ok((Some(n), None));
            },
            None => {
                let a = concat_str("`", h.as_str());
                return Err(concat_str(a.as_str(), "` is not a hop count"));
            },
        }
    }
    let is_exact = f.len() == 3 && chars_are(f[0].as_slice(), "exact");
    let is_prefix = f.len() == 3 && chars_are(f[0].as_slice(), "prefix");
    if is_exact || is_prefix {
        let from = string_from(f[1].as_slice());
        let to = string_from(f[2].as_slice());
        match Iri::parse(from.as_str()) {
            Err(e) => {
                let a = concat_str("from `", from.as_str());
                let b = concat_str(a.as_str(), "`: ");
                return Err(concat_str(b.as_str(), e.to_string().as_str()));
            },
            Ok(_) => {},
        }
        match Iri::parse(to.as_str()) {
            Err(e) => {
                let a = concat_str("to `", to.as_str());
                let b = concat_str(a.as_str(), "`: ");
                return Err(concat_str(b.as_str(), e.to_string().as_str()));
            },
            Ok(_) => {},
        }
        let kind = if is_exact {
            RuleKind::Exact
        } else {
            RuleKind::Prefix
        };
        return Ok((None, Some((kind, from, to))));
    }
    let c = string_from(content.as_slice());
    let a = concat_str(
        "expected `exact <from> <to>`, `prefix <from> <to>` or `max-hops <n>`, got `",
        c.as_str(),
    );
    Err(concat_str(a.as_str(), "`"))
}

impl AliasTable {
    /// The scopes, in order, that mention the `from` of some rule: a hint that
    /// a grant was not migrated with the resource it names.
    pub fn scopes_naming_stale_namespaces(&self, scopes: &[String]) -> (r: Vec<String>)
        ensures
            strings_view(r@) == stale_scopes(self@.rules, strings_view(scopes@)),
    {
        let mut hits: Vec<String> = Vec::new();
        let mut i: usize = 0;
        while i < scopes.len()
            invariant
                i <= scopes@.len(),
                strings_view(hits@) == stale_scopes(self@.rules, strings_view(scopes@).take(i as int)),
            decreases scopes@.len() - i,
        {
            let scope = scopes[i].as_str();
            let mut named = false;
            let mut j: usize = 0;
            while j < self.rules.len()
                invariant
                    j <= self@.rules.len(),
                    named == exists|k: int| 0 <= k < j && seq_contains_seq(scope@, #[trigger] self@.rules[k].from),
                decreases self@.rules.len() - j,
            {
                assert(self.rules@[j as int]@ == self@.rules[j as int]);
                let c = str_contains(scope, self.rules[j].from.as_str());
                proof {
                    assert(c == seq_contains_seq(scope@, self@.rules[j as int].from));
                    if named || c {
                        if c {
                            assert(0 <= j < j + 1 && seq_contains_seq(scope@, self@.rules[j as int].from));
                        }
                    } else {
                        assert forall|k: int| 0 <= k < j + 1 implies !seq_contains_seq(
                            scope@,
                            #[trigger] self@.rules[k].from,
                        ) by {
                            if k < j {
                            }
                        }
                    }
                }
                named = named || c;
                j = j + 1;
            }
            let ghost before = strings_view(hits@);
            if named {
                hits.push(copy_str(scope));
            }
            proof {
                let t = strings_view(scopes@).take(i + 1);
                assert(t.drop_last() =~= strings_view(scopes@).take(i as int));
                assert(t.last() == scope@);
                assert(strings_view(hits@) =~= (if named {
                    before.push(scope@)
                } else {
                    before
                }));
            }
            i = i + 1;
        }
        proof {
            assert(strings_view(scopes@).take(scopes@.len() as int) =~= strings_view(scopes@));
        }
        hits
    }

    /// Parse the line-oriented text form: blank lines and `#` comments are
    /// ignored; each other line is `exact <from> <to>`, `prefix <from> <to>`
    /// (both IRIs) or `max-hops <n>`.
    pub fn parse(text: &str) -> (r: Result<AliasTable, AliasParseError>)
        ensures
            match r {
                Ok(t) => parse_table(text@) == Ok::<TableView, (nat, Seq<char>)>(t@),
                Err(e) => parse_table(text@) == Err::<TableView, (nat, Seq<char>)>(
                    (e.line as nat, e.detail@),
                ),
            },
    {
        let cs = chars_of(text);
        let lines = lines_of(cs.as_slice());
        let mut table = AliasTable::new();
        let mut i: usize = 0;
        while i < lines.len()
            invariant
                i <= lines@.len(),
                lines@.len() == split_lines(text@).len(),
                forall|k: int| 0 <= k < lines@.len() ==> (#[trigger] lines@[k])@ == split_lines(text@)[k],
                parse_table(text@) == parse_lines(split_lines(text@), i as int, table@),
            decreases lines@.len() - i,
        {
            match read_line(lines[i].as_slice()) {
                Ok((None, None)) => {},
                Ok((Some(n), _)) => {
                    table = table.with_max_hops(n);
                },
                Ok((None, Some((kind, from, to)))) => {
                    table = table.rule(kind, from.as_str(), to.as_str());
                },
                Err(detail) => {
                    return Err(AliasParseError { line: i + 1, detail });
                },
            }
            i = i + 1;
        }
        Ok(table)
    }

    /// Render the table back to its text form (counters are not rendered).
    pub fn to_text(&self) -> (r: String)
        ensures
            r@ == table_text(self@),
    {
        let mut out = String::new();
        if self.max_hops != DEFAULT_MAX_HOPS {
            out.append("max-hops ");
            out.append(decimal(self.max_hops as u64).as_str());
            out.append("\n");
        }
        let ghost head = out@;
        let mut i: usize = 0;
        while i < self.rules.len()
            invariant
                i <= self@.rules.len(),
                out@ == head + rules_text(self@.rules.take(i as int)),
                head == (if self@.max_hops != DEFAULT_MAX_HOPS {
                    "max-hops "@ + decimal_of(self@.max_hops as nat) + "\n"@
                } else {
                    Seq::<char>::empty()
                }),
            decreases self@.rules.len() - i,
        {
            let rule = &self.rules[i];
            assert(rule@ == self@.rules[i as int]);
            let ghost before = out@;
            out.append(rule.kind.keyword());
            out.append(" ");
            out.append(rule.from.as_str());
            out.append(" ");
            out.append(rule.to.as_str());
            out.append("\n");
            proof {
                let t = self@.rules.take(i + 1);
                assert(t.drop_last() =~= self@.rules.take(i as int));
                assert(out@ =~= before + rule_line(rule@));
            }
            i = i + 1;
        }
        proof {
            assert(self@.rules.take(self@.rules.len() as int) =~= self@.rules);
        }
        out
    }
}

/// A walk that ends in a rewrite ends on a name no rule matches.
proof fn lemma_walk_ends_terminal(
    rules: Seq<RuleView>,
    max: usize,
    logical: Seq<char>,
    current: Seq<char>,
    trail: Seq<Seq<char>>,
    applied: Seq<usize>,
    k: nat,
)
    requires
        walk(rules, max, logical, current, trail, applied, k) is Aliased,
    ensures
        step_from(rules, walk(rules, max, logical, current, trail, applied, k)->Aliased_0.canonical, 0)
            is None,
        walk(rules, max, logical, current, trail, applied, k)->Aliased_0.logical == logical,
    decreases k,
{
    match step_from(rules, current, 0) {
        None => {},
        Some((i, next)) => {
            if k > 0 {
                let applied2 = applied.push(i as usize);
                if iri_parse_error(next) is None && !trail.contains(next) {
                    lemma_walk_ends_terminal(
                        rules,
                        max,
                        logical,
                        next,
                        trail.push(next),
                        applied2,
                        (k - 1) as nat,
                    );
                }
            }
        },
    }
}

/// The shape of a walk: it reads as direct exactly when no rule applied and
/// none applies where it stands; a completed rewrite keeps its logical name,
/// ends where no rule applies, and has taken between one and `k` more rules.
proof fn lemma_walk_shape(
    rules: Seq<RuleView>,
    max: usize,
    logical: Seq<char>,
    current: Seq<char>,
    trail: Seq<Seq<char>>,
    applied: Seq<usize>,
    k: nat,
)
    ensures
        (walk(rules, max, logical, current, trail, applied, k) is Direct) <==> (applied.len() == 0
            && step_from(rules, current, 0) is None),
        walk(rules, max, logical, current, trail, applied, k) matches CanonicalView::Aliased(h) ==> {
            &&& h.logical == logical
            &&& step_from(rules, h.canonical, 0) is None
            &&& 1 <= h.rules.len() <= applied.len() + k
            &&& applied.len() <= h.rules.len()
        },
    decreases k,
{
    match step_from(rules, current, 0) {
        None => {},
        Some((i, next)) => {
            if k > 0 {
                let applied2 = applied.push(i as usize);
                if iri_parse_error(next) is None && !trail.contains(next) {
                    lemma_walk_shape(rules, max, logical, next, trail.push(next), applied2, (k - 1) as nat);
                }
            }
        },
    }
}

/// What canonicalizing `target` gives, in outline: a name in the kernel
/// namespace, or one that no rule applies to, is resolved as it is; a
/// completed rewrite keeps the name it started from, lands where no rule
/// applies, and took at least one and at most `max` rewrites.
pub proof fn lemma_canonical_outcome_shape(rules: Seq<RuleView>, max: usize, target: Seq<char>)
    ensures
        (canonical_outcome(rules, max, target) is Direct) <==> (seq_starts_with(target, kernel_ns())
            || step_from(rules, target, 0) is None),
        canonical_outcome(rules, max, target) matches CanonicalView::Aliased(h) ==> {
            &&& h.logical == target
            &&& step_from(rules, h.canonical, 0) is None
            &&& 1 <= h.rules.len() <= max
        },
{
    lemma_walk_shape(rules, max, target, target, seq![target], Seq::empty(), max as nat);
}

/// A trailing comment never changes how a line of the text form reads:
/// for a line without `#`, adding `#` and any text after it reads the same.
pub proof fn lemma_trailing_comment_is_ignored(l: Seq<char>, c: Seq<char>)
    requires
        forall|i: int| 0 <= i < l.len() ==> #[trigger] l[i] != '#',
    ensures
        line_outcome(l + seq!['#'] + c) == line_outcome(l),
{
    crate::tokens::lemma_comment_is_cut(l, c);
    crate::tokens::lemma_before_hash_none(l);
}

proof fn lemma_step_from_first(rules: Seq<RuleView>, t: Seq<char>, i: int)
    requires
        0 <= i,
    ensures
        step_from(rules, t, i) matches Some((j, n)) ==> i <= j < rules.len() && apply_rule(rules[j], t)
            == Some(n) && forall|k: int| i <= k < j ==> apply_rule(#[trigger] rules[k], t) is None,
        step_from(rules, t, i) is None ==> forall|k: int| i <= k < rules.len() ==> apply_rule(#[trigger] rules[k], t) is None,
    decreases rules.len() - i,
{
    if i < rules.len() && apply_rule(rules[i], t) is None {
        lemma_step_from_first(rules, t, i + 1);
    }
}

/// In a table kept most specific first, a later rule's `from` is never
/// longer (in bytes) than an earlier one's, and at equal length an exact
/// rule never follows a prefix rule.
pub proof fn lemma_ordered_rules_longest_first(s: Seq<RuleView>, i: int, j: int)
    requires
        rules_ordered(s),
        0 <= i < j < s.len(),
    ensures
        byte_len(s[i].from) >= byte_len(s[j].from),
        byte_len(s[i].from) == byte_len(s[j].from) ==> kind_rank(s[i].kind) <= kind_rank(s[j].kind),
{
    assert(!more_specific(s[j], s[i]));
}

/// The rewrite applied to a name is that of the most specific rule matching
/// it: no other matching rule has a longer `from` (in bytes), and none of
/// equal length is exact where the applied one is a prefix.
pub proof fn lemma_most_specific_rule_applies(rules: Seq<RuleView>, t: Seq<char>)
    requires
        rules_ordered(rules),
    ensures
        step_from(rules, t, 0) matches Some((i, n)) ==> {
            &&& apply_rule(rules[i], t) == Some(n)
            &&& forall|k: int|
                0 <= k < rules.len() && apply_rule(#[trigger] rules[k], t) is Some ==> {
                    &&& byte_len(rules[k].from) <= byte_len(rules[i].from)
                    &&& byte_len(rules[k].from) == byte_len(rules[i].from) ==> kind_rank(rules[i].kind)
                        <= kind_rank(rules[k].kind)
                }
        },
        step_from(rules, t, 0) is None ==> forall|k: int| 0 <= k < rules.len() ==> apply_rule(#[trigger] rules[k], t) is None,
{
    lemma_step_from_first(rules, t, 0);
    if let Some((i, n)) = step_from(rules, t, 0) {
        assert forall|k: int| 0 <= k < rules.len() && apply_rule(#[trigger] rules[k], t) is Some implies {
            &&& byte_len(rules[k].from) <= byte_len(rules[i].from)
            &&& byte_len(rules[k].from) == byte_len(rules[i].from) ==> kind_rank(rules[i].kind) <= kind_rank(
                rules[k].kind,
            )
        } by {
            if k > i {
                lemma_ordered_rules_longest_first(rules, i, k);
            }
        }
    }
}

/// A completed rewrite lands on a name that no rule rewrites further:
/// canonicalizing the backing name again leaves it as it is.
pub proof fn lemma_canonical_is_fixed_point(rules: Seq<RuleView>, max: usize, target: Seq<char>)
    requires
        max >= 1,
        canonical_outcome(rules, max, target) is Aliased,
    ensures
        step_from(rules, canonical_outcome(rules, max, target)->Aliased_0.canonical, 0) is None,
        canonical_outcome(rules, max, canonical_outcome(rules, max, target)->Aliased_0.canonical)
            is Direct,
{
    lemma_walk_ends_terminal(rules, max, target, target, seq![target], Seq::empty(), max as nat);
}

/// `insert_position` is the first index whose rule `r` is more specific than
/// (or the end).
proof fn lemma_insert_position_unique(s: Seq<RuleView>, r: RuleView, q: int)
    requires
        0 <= q <= s.len(),
        forall|i: int| 0 <= i < q ==> !more_specific(r, #[trigger] s[i]),
        q < s.len() ==> more_specific(r, s[q]),
    ensures
        insert_position(s, r, 0) == q,
{
    lemma_insert_position(s, r, 0);
    let p = insert_position(s, r, 0);
    if p < q {
        assert(!more_specific(r, s[p]));
    } else if p > q {
        assert(!more_specific(r, s[q]));
    }
}

/// Declaration order does not matter between two rules that the order tells
/// apart: adding them one way round or the other gives the same table.
pub proof fn lemma_declaration_order_irrelevant(s: Seq<RuleView>, a: RuleView, b: RuleView)
    requires
        rules_ordered(s),
        more_specific(a, b) || more_specific(b, a),
    ensures
        insert_rule(insert_rule(s, a), b) == insert_rule(insert_rule(s, b), a),
{
    if more_specific(b, a) {
        lemma_declaration_order_irrelevant_ordered(s, b, a);
    } else {
        lemma_declaration_order_irrelevant_ordered(s, a, b);
    }
}

proof fn lemma_declaration_order_irrelevant_ordered(s: Seq<RuleView>, a: RuleView, b: RuleView)
    requires
        rules_ordered(s),
        more_specific(a, b),
    ensures
        insert_rule(insert_rule(s, a), b) == insert_rule(insert_rule(s, b), a),
{
    lemma_insert_position(s, a, 0);
    lemma_insert_position(s, b, 0);
    let pa = insert_position(s, a, 0);
    let pb = insert_position(s, b, 0);
    lemma_more_specific_order(a, b, a);
    if pb < s.len() {
        lemma_more_specific_order(a, b, s[pb]);
    }
    assert(pa <= pb) by {
        if pa > pb {
            assert(!more_specific(a, s[pb]));
        }
    }
    let sa = insert_rule(s, a);
    let sb = insert_rule(s, b);
    // b goes one past where it went in `s`
    assert forall|i: int| 0 <= i < pb + 1 implies !more_specific(b, #[trigger] sa[i]) by {
        if i < pa {
            assert(sa[i] == s[i]);
        } else if i == pa {
            assert(sa[i] == a);
        } else {
            assert(sa[i] == s[i - 1]);
        }
    }
    if pb + 1 < sa.len() {
        assert(sa[pb + 1] == s[pb]);
    }
    lemma_insert_position_unique(sa, b, pb + 1);
    // a goes where it went in `s`
    assert forall|i: int| 0 <= i < pa implies !more_specific(a, #[trigger] sb[i]) by {
        assert(sb[i] == s[i]);
    }
    if pa < sb.len() {
        if pa < pb {
            assert(sb[pa] == s[pa]);
        } else {
            assert(sb[pa] == b);
        }
    }
    lemma_insert_position_unique(sb, a, pa);
    let x = insert_rule(sa, b);
    let y = insert_rule(sb, a);
    assert(x.len() == y.len());
    assert forall|i: int| 0 <= i < x.len() implies x[i] == y[i] by {
        if i < pa {
        } else if i == pa {
        } else if i <= pb {
        } else if i == pb + 1 {
        } else {
        }
    }
    assert(x =~= y);
}

/// The rules with their counters at zero: what the text form carries.
pub open spec fn zeroed(rs: Seq<RuleView>) -> Seq<RuleView> {
    rs.map_values(|r: RuleView| fresh_rule(r.kind, r.from, r.to))
}

/// A name the text form can carry: a non-empty IRI with no whitespace and no
/// `#` in it.
pub open spec fn writable_name(s: Seq<char>) -> bool {
    &&& s.len() > 0
    &&& iri_parse_error(s) is None
    &&& forall|i: int| 0 <= i < s.len() ==> !is_ws(#[trigger] s[i]) && s[i] != '#'
}

/// A rule's line without its newline.
pub open spec fn rule_content(r: RuleView) -> Seq<char> {
    kind_keyword(r.kind) + " "@ + r.from + " "@ + r.to
}

/// The `max-hops` line without its newline.
pub open spec fn max_hops_content(n: usize) -> Seq<char> {
    "max-hops "@ + decimal_of(n as nat)
}

/// A rule's line reads back as that rule.
proof fn lemma_rule_line_reads(r: RuleView)
    requires
        writable_name(r.from),
        writable_name(r.to),
    ensures
        line_outcome(rule_content(r)) == LineView::Rule(r.kind, r.from, r.to),
        forall|i: int| 0 <= i < rule_content(r).len() ==> #[trigger] rule_content(r)[i] != '\n',
{
    reveal_strlit("exact");
    reveal_strlit("prefix");
    reveal_strlit(" ");
    reveal_strlit("max-hops");
    let kw = kind_keyword(r.kind);
    let sp = " "@;
    let c = rule_content(r);
    assert(forall|i: int| 0 <= i < kw.len() ==> !is_ws(#[trigger] kw[i]) && kw[i] != '#');
    // no `#` and no newline anywhere
    assert forall|i: int| 0 <= i < c.len() implies #[trigger] c[i] != '#' && c[i] != '\n' by {
        let a = kw + sp;
        let b = a + r.from;
        let d = b + sp;
        if i < kw.len() {
            assert(c[i] == kw[i]);
        } else if i < a.len() {
            assert(c[i] == ' ');
        } else if i < b.len() {
            assert(c[i] == r.from[i - a.len()]);
        } else if i < d.len() {
            assert(c[i] == ' ');
        } else {
            assert(c[i] == r.to[i - d.len()]);
        }
    }
    lemma_before_hash_none(c);
    assert(c[0] == kw[0]);
    assert(c.last() == r.to.last());
    lemma_trim_none(c);
    // the three words
    lemma_words_append_word(Seq::empty(), kw);
    assert(Seq::<char>::empty() + kw =~= kw);
    assert(kw + sp =~= kw.push(' '));
    lemma_words_space(kw);
    lemma_words_append_word(kw + sp, r.from);
    assert(kw + sp + r.from + sp =~= (kw + sp + r.from).push(' '));
    lemma_words_space(kw + sp + r.from);
    lemma_words_append_word(kw + sp + r.from + sp, r.to);
    assert(words(c) =~= seq![kw, r.from, r.to]);
}

/// The `max-hops` line reads back as that budget.
proof fn lemma_max_line_reads(n: usize)
    requires
        n >= 1,
    ensures
        line_outcome(max_hops_content(n)) == LineView::MaxHops(n),
        forall|i: int| 0 <= i < max_hops_content(n).len() ==> #[trigger] max_hops_content(n)[i]
            != '\n',
{
    reveal_strlit("max-hops ");
    reveal_strlit("max-hops");
    let d = decimal_of(n as nat);
    crate::decimal::lemma_decimal_reads_back(n as nat);
    crate::decimal::lemma_parse_decimal(n as nat, usize::MAX as nat);
    let kw = "max-hops"@;
    let c = max_hops_content(n);
    assert("max-hops "@ =~= kw.push(' '));
    assert forall|i: int| 0 <= i < d.len() implies !is_ws(#[trigger] d[i]) && d[i] != '#' by {
        assert(crate::decimal::is_digit(d[i]));
    }
    assert forall|i: int| 0 <= i < c.len() implies #[trigger] c[i] != '#' && c[i] != '\n' by {
        if i >= 9 {
            assert(c[i] == d[i - 9]);
        }
    }
    lemma_before_hash_none(c);
    assert(crate::decimal::is_digit(d.last()));
    lemma_trim_none(c);
    lemma_words_append_word(Seq::empty(), kw);
    assert(Seq::<char>::empty() + kw =~= kw);
    lemma_words_space(kw);
    lemma_words_append_word(kw.push(' '), d);
    assert(words(c) =~= seq![kw, d]);
}

/// The lines of `x` followed by rules written out: `x`'s lines, one per rule,
/// then an empty last piece.
proof fn lemma_split_rules_text(x: Seq<char>, rs: Seq<RuleView>)
    requires
        split_lines(x).len() >= 1,
        split_lines(x).last() == Seq::<char>::empty(),
        forall|k: int|
            0 <= k < rs.len() ==> writable_name(#[trigger] rs[k].from) && writable_name(rs[k].to),
    ensures
        split_lines(x + rules_text(rs)) == split_lines(x).drop_last() + rs.map_values(
            |r: RuleView| rule_content(r),
        ) + seq![Seq::<char>::empty()],
    decreases rs.len(),
{
    reveal_strlit("\n");
    if rs.len() == 0 {
        assert(x + rules_text(rs) =~= x);
        assert(split_lines(x).drop_last() + rs.map_values(|r: RuleView| rule_content(r)) + seq![
            Seq::<char>::empty(),
        ] =~= split_lines(x));
    } else {
        let r2 = rs.drop_last();
        let r = rs.last();
        assert forall|k: int| 0 <= k < r2.len() implies writable_name(#[trigger] r2[k].from)
            && writable_name(r2[k].to) by {
            assert(r2[k] == rs[k]);
            assert(writable_name(rs[k].from));
        }
        lemma_split_rules_text(x, r2);
        assert(writable_name(rs[rs.len() - 1].from));
        assert(writable_name(r.from) && writable_name(r.to));
        lemma_rule_line_reads(r);
        let y = x + rules_text(r2);
        let c = rule_content(r);
        assert(x + rules_text(rs) =~= (y + c).push('\n'));
        lemma_split_lines_newline(y + c);
        lemma_split_lines_extend(y, c);
        crate::tokens::lemma_split_lines_len(y);
        assert(split_lines(y).update(split_lines(y).len() - 1, split_lines(y).last() + c).push(
            Seq::<char>::empty(),
        ) =~= split_lines(x).drop_last() + rs.map_values(|r: RuleView| rule_content(r)) + seq![
            Seq::<char>::empty(),
        ]);
    }
}

/// Adding a rule no earlier rule is less specific than appends it.
proof fn lemma_insert_at_end(s: Seq<RuleView>, r: RuleView)
    requires
        forall|i: int| 0 <= i < s.len() ==> !more_specific(r, #[trigger] s[i]),
    ensures
        insert_rule(s, r) == s.push(r),
{
    lemma_insert_position_unique(s, r, s.len() as int);
    assert(s.take(s.len() as int) + seq![r] + s.skip(s.len() as int) =~= s.push(r));
}

/// Reading the rule lines of a written table rebuilds its rules in order.
proof fn lemma_parse_rule_lines(lines: Seq<Seq<char>>, rs: Seq<RuleView>, off: int, i: int, t: TableView)
    requires
        0 <= off,
        lines.len() == off + rs.len() + 1,
        lines.last() == Seq::<char>::empty(),
        forall|k: int| 0 <= k < rs.len() ==> lines[off + k] == rule_content(#[trigger] rs[k]),
        forall|k: int|
            0 <= k < rs.len() ==> writable_name(#[trigger] rs[k].from) && writable_name(rs[k].to),
        rules_ordered(rs),
        0 <= i <= rs.len(),
        t.rules == zeroed(rs.take(i)),
    ensures
        parse_lines(lines, off + i, t) == Ok::<TableView, (nat, Seq<char>)>(
            TableView { rules: zeroed(rs), max_hops: t.max_hops },
        ),
    decreases rs.len() - i,
{
    if i == rs.len() {
        assert(rs.take(i) =~= rs);
        assert(trim(before_hash(Seq::<char>::empty())) =~= Seq::<char>::empty());
        assert(parse_lines(lines, off + i + 1, t) == Ok::<TableView, (nat, Seq<char>)>(t));
    } else {
        let r = rs[i];
        lemma_rule_line_reads(r);
        assert(lines[off + i] == rule_content(rs[i]));
        let z = zeroed(rs.take(i));
        let fr = fresh_rule(r.kind, r.from, r.to);
        assert forall|k: int| 0 <= k < z.len() implies !more_specific(fr, #[trigger] z[k]) by {
            assert(z[k].kind == rs[k].kind && z[k].from == rs[k].from);
            assert(!more_specific(rs[i], rs[k]));
        }
        lemma_insert_at_end(z, fr);
        assert(z.push(fr) =~= zeroed(rs.take(i + 1)));
        lemma_parse_rule_lines(
            lines,
            rs,
            off,
            i + 1,
            TableView { rules: zeroed(rs.take(i + 1)), max_hops: t.max_hops },
        );
    }
}

/// The text form round-trips: reading back what `to_text` writes gives the
/// same rules, in the same order, and the same hop budget (counters, which
/// are not written, come back at zero), for rules whose names the form can
/// carry.
pub proof fn lemma_text_round_trip(t: TableView)
    requires
        rules_ordered(t.rules),
        t.max_hops >= 1,
        forall|k: int|
            0 <= k < t.rules.len() ==> writable_name(#[trigger] t.rules[k].from) && writable_name(
                t.rules[k].to,
            ),
    ensures
        parse_table(table_text(t)) == Ok::<TableView, (nat, Seq<char>)>(
            TableView { rules: zeroed(t.rules), max_hops: t.max_hops },
        ),
{
    reveal_strlit("\n");
    let rs = t.rules;
    let h = if t.max_hops != DEFAULT_MAX_HOPS {
        "max-hops "@ + decimal_of(t.max_hops as nat) + "\n"@
    } else {
        Seq::<char>::empty()
    };
    assert(table_text(t) == h + rules_text(rs));
    let t0 = TableView { rules: Seq::empty(), max_hops: DEFAULT_MAX_HOPS };
    assert(rs.take(0) =~= Seq::<RuleView>::empty());
    assert(zeroed(rs.take(0)) =~= Seq::<RuleView>::empty());
    if t.max_hops != DEFAULT_MAX_HOPS {
        let hl = max_hops_content(t.max_hops);
        lemma_max_line_reads(t.max_hops);
        assert(h =~= hl.push('\n'));
        lemma_split_lines_newline(hl);
        lemma_split_lines_single(hl);
        assert(split_lines(h) =~= seq![hl, Seq::<char>::empty()]);
        lemma_split_rules_text(h, rs);
        let lines = split_lines(h + rules_text(rs));
        assert(lines =~= seq![hl] + rs.map_values(|r: RuleView| rule_content(r)) + seq![
            Seq::<char>::empty(),
        ]);
        assert(lines[0] == hl);
        let t1 = TableView { rules: Seq::empty(), max_hops: t.max_hops };
        assert forall|k: int| 0 <= k < rs.len() implies lines[1 + k] == rule_content(
            #[trigger] rs[k],
        ) by {
            assert(lines[1 + k] == rs.map_values(|r: RuleView| rule_content(r))[k]);
        }
        lemma_parse_rule_lines(lines, rs, 1, 0, t1);
        assert(parse_lines(lines, 0, t0) == parse_lines(lines, 1, t1));
    } else {
        assert(h + rules_text(rs) =~= rules_text(rs));
        assert(split_lines(h) =~= seq![Seq::<char>::empty()]);
        lemma_split_rules_text(h, rs);
        let lines = split_lines(h + rules_text(rs));
        assert(lines =~= rs.map_values(|r: RuleView| rule_content(r)) + seq![Seq::<char>::empty()]);
        assert forall|k: int| 0 <= k < rs.len() implies lines[0 + k] == rule_content(
            #[trigger] rs[k],
        ) by {
            assert(lines[k] == rs.map_values(|r: RuleView| rule_content(r))[k]);
        }
        lemma_parse_rule_lines(lines, rs, 0, 0, t0);
    }
}

impl Default for AliasTable {
    /// An empty table with the default hop budget.
    fn default() -> (r: AliasTable)
        ensures
            r@.rules == Seq::<RuleView>::empty(),
            r@.max_hops == DEFAULT_MAX_HOPS,
    {
        AliasTable::new()
    }
}

} // verus!
