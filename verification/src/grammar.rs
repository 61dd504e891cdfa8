//! Grammars: deciding whether an identifier belongs to an endpoint, and
//! capturing variables from it — exact identifiers and Level-1 URI templates.

use vstd::prelude::*;

use crate::iri::Iri;
use crate::sorted::{insert_sorted, keys_sorted, kv_get, kv_insert, kv_view, lemma_insert_sorted, lookup};
use crate::text::{chars_of, copy_str, find_from, occurs_at, str_eq, string_from};

verus! {

/// Variables captured when a grammar matches an identifier, sorted by name.
#[derive(Debug)]
pub struct Bindings {
    entries: Vec<(String, String)>,
}

impl View for Bindings {
    type V = Seq<(Seq<char>, Seq<char>)>;

    closed spec fn view(&self) -> Seq<(Seq<char>, Seq<char>)> {
        kv_view(self.entries@)
    }
}

impl Bindings {
    #[verifier::type_invariant]
    spec fn sorted(&self) -> bool {
        keys_sorted(kv_view(self.entries@))
    }

    /// An empty binding set.
    pub fn new() -> (r: Bindings)
        ensures
            r@ == Seq::<(Seq<char>, Seq<char>)>::empty(),
    {
        Bindings { entries: Vec::new() }
    }

    /// Look up a captured variable.
    pub fn get(&self, key: &str) -> (r: Option<&str>)
        ensures
            match r {
                Some(v) => lookup(self@, key@) == Some(v@),
                None => lookup(self@, key@) is None,
            },
    {
        match kv_get(&self.entries, key) {
            Some(v) => Some(v.as_str()),
            None => None,
        }
    }

    /// Insert a captured variable, replacing any earlier value for it.
    pub fn insert(&mut self, key: &str, value: &str)
        ensures
            final(self)@ == insert_sorted(old(self)@, key@, value@),
    {
        proof {
            use_type_invariant(&*self);
            lemma_insert_sorted(self@, key@, value@);
        }
        let mut entries = Vec::new();
        std::mem::swap(&mut entries, &mut self.entries);
        kv_insert(&mut entries, key.to_owned(), value.to_owned());
        self.entries = entries;
    }

    /// Whether no variables were captured.
    pub fn is_empty(&self) -> (r: bool)
        ensures
            r == (self@.len() == 0),
    {
        self.entries.len() == 0
    }

    /// How many variables were captured.
    pub fn len(&self) -> (r: usize)
        ensures
            r == self@.len(),
    {
        self.entries.len()
    }

    /// The captured `(name, value)` pairs, in name order.
    pub fn iter(&self) -> (r: Vec<(&str, &str)>)
        ensures
            r@.len() == self@.len(),
            forall|i: int|
                0 <= i < r@.len() ==> (#[trigger] r@[i]).0@ == self@[i].0 && r@[i].1@ == self@[i].1,
    {
        let mut out: Vec<(&str, &str)> = Vec::new();
        let mut i: usize = 0;
        while i < self.entries.len()
            invariant
                i <= self.entries@.len(),
                self@.len() == self.entries@.len(),
                out@.len() == i,
                forall|k: int|
                    0 <= k < i ==> (#[trigger] out@[k]).0@ == self@[k].0 && out@[k].1@ == self@[k].1,
            decreases self.entries@.len() - i,
        {
            out.push((self.entries[i].0.as_str(), self.entries[i].1.as_str()));
            i = i + 1;
        }
        out
    }

    /// The `i`-th captured `(name, value)` pair, in name order.
    pub fn entry(&self, i: usize) -> (r: (&str, &str))
        requires
            i < self@.len(),
        ensures
            r.0@ == self@[i as int].0,
            r.1@ == self@[i as int].1,
    {
        (self.entries[i].0.as_str(), self.entries[i].1.as_str())
    }
}

/// A grammar decides whether an identifier belongs to an endpoint and, if so,
/// extracts variable bindings from it.
pub trait Grammar {
    /// Return captured bindings if `iri` matches this grammar, else `None`.
    fn match_iri(&self, iri: &Iri) -> Option<Bindings>;

    /// The grammar's pattern, for enumeration: the identifier itself, or the
    /// template's source.
    fn pattern(&self) -> String;
}

/// Matches one exact identifier and captures no variables.
pub struct Exact(String);

impl View for Exact {
    type V = Seq<char>;

    closed spec fn view(&self) -> Seq<char> {
        self.0@
    }
}

impl Exact {
    /// A grammar matching exactly `iri`.
    pub fn new(iri: &str) -> (r: Exact)
        ensures
            r@ == iri@,
    {
        Exact(iri.to_owned())
    }

    /// Bindings (none) when `iri` is exactly this grammar's identifier.
    pub fn matches(&self, iri: &Iri) -> (r: Option<Bindings>)
        ensures
            match r {
                Some(b) => iri@ == self@ && b@.len() == 0,
                None => iri@ != self@,
            },
    {
        if str_eq(iri.as_str(), self.0.as_str()) {
            Some(Bindings::new())
        } else {
            None
        }
    }
}

impl Grammar for Exact {
    fn match_iri(&self, iri: &Iri) -> (r: Option<Bindings>)
        ensures
            match r {
                Some(b) => iri@ == self@ && b@.len() == 0,
                None => iri@ != self@,
            },
    {
        self.matches(iri)
    }

    fn pattern(&self) -> (r: String)
        ensures
            r@ == self@,
    {
        copy_str(self.0.as_str())
    }
}

/// One piece of a parsed template, abstractly.
pub enum PartModel {
    /// Literal text, matched verbatim.
    Lit(Seq<char>),
    /// A `{var}` capture.
    Var(Seq<char>),
}

enum Part {
    Lit(String),
    Var(String),
}

impl View for Part {
    type V = PartModel;

    closed spec fn view(&self) -> PartModel {
        match self {
            Part::Lit(s) => PartModel::Lit(s@),
            Part::Var(s) => PartModel::Var(s@),
        }
    }
}

/// The parts of a template, abstractly.
spec fn parts_view(parts: Seq<Part>) -> Seq<PartModel> {
    parts.map_values(|p: Part| p@)
}

/// The leftmost position at or after `from` holding `c`.
pub open spec fn first_from(s: Seq<char>, c: char, from: int) -> Option<int>
    decreases s.len() - from,
{
    if from < 0 || from >= s.len() {
        None
    } else if s[from] == c {
        Some(from)
    } else {
        first_from(s, c, from + 1)
    }
}

/// What `first_from` finds: a position at or after `from` holding `c`, with
/// none before it.
pub proof fn lemma_first_from(s: Seq<char>, c: char, from: int)
    ensures
        match first_from(s, c, from) {
            Some(i) => 0 <= from <= i < s.len() && s[i] == c && forall|k: int|
                from <= k < i ==> s[k] != c,
            None => forall|k: int| 0 <= from <= k < s.len() ==> s[k] != c,
        },
    decreases s.len() - from,
{
    if from >= 0 && from < s.len() && s[from] != c {
        lemma_first_from(s, c, from + 1);
    }
}

/// Whether a template variable name is valid: non-empty ASCII alphanumerics
/// and underscores.
pub open spec fn valid_var_name(name: Seq<char>) -> bool {
    name.len() > 0 && forall|i: int| 0 <= i < name.len() ==> {
        let c = #[trigger] name[i];
        ('a' <= c && c <= 'z') || ('A' <= c && c <= 'Z') || ('0' <= c && c <= '9') || c == '_'
    }
}

/// The message for an unclosed `{`.
pub open spec fn unclosed_message(src: Seq<char>) -> Seq<char> {
    "unclosed '{' in `"@ + src + "`"@
}

/// The message for an invalid variable name.
pub open spec fn invalid_var_message(src: Seq<char>, name: Seq<char>) -> Seq<char> {
    "invalid variable `{"@ + name + "}` in `"@ + src + "`"@
}

/// The message for two adjacent variables.
pub open spec fn adjacent_message(src: Seq<char>) -> Seq<char> {
    "adjacent variables are ambiguous in `"@ + src + "`"@
}

/// Splitting `src[from..]` into literal and variable parts, left to right; the
/// first malformed `{…}` met is the error.
pub open spec fn split_parts(src: Seq<char>, from: int) -> Result<Seq<PartModel>, Seq<char>>
    decreases src.len() - from,
{
    if from < 0 || from > src.len() {
        Ok(Seq::empty())
    } else {
        match first_from(src, '{', from) {
            None => Ok(
                if from < src.len() {
                    seq![PartModel::Lit(src.subrange(from, src.len() as int))]
                } else {
                    Seq::empty()
                },
            ),
            Some(open) => {
                let lit = if open > from {
                    seq![PartModel::Lit(src.subrange(from, open))]
                } else {
                    Seq::<PartModel>::empty()
                };
                match first_from(src, '}', open) {
                    None => Err(unclosed_message(src)),
                    Some(close) => {
                        proof {
                            lemma_first_from(src, '{', from);
                            lemma_first_from(src, '}', open);
                        }
                        let name = src.subrange(open + 1, close);
                        if !valid_var_name(name) {
                            Err(invalid_var_message(src, name))
                        } else {
                            match split_parts(src, close + 1) {
                                Ok(tail) => Ok(lit + seq![PartModel::Var(name)] + tail),
                                Err(e) => Err(e),
                            }
                        }
                    },
                }
            },
        }
    }
}

/// Whether two variables stand next to each other with no literal between.
pub open spec fn has_adjacent_vars(parts: Seq<PartModel>) -> bool {
    exists|i: int, j: int|
        0 <= i && j == i + 1 && j < parts.len() && (#[trigger] parts[i]) is Var && (
        #[trigger] parts[j]) is Var
}

/// The outcome of parsing a template source.
pub open spec fn parse_template(src: Seq<char>) -> Result<Seq<PartModel>, Seq<char>> {
    match split_parts(src, 0) {
        Err(e) => Err(e),
        Ok(parts) => if has_adjacent_vars(parts) {
            Err(adjacent_message(src))
        } else {
            Ok(parts)
        },
    }
}

/// Matching `input[pos..]` against `parts[i..]`, capturing into `b`.
pub open spec fn match_from(
    parts: Seq<PartModel>,
    input: Seq<char>,
    i: int,
    pos: int,
    b: Seq<(Seq<char>, Seq<char>)>,
) -> Option<Seq<(Seq<char>, Seq<char>)>>
    decreases parts.len() - i,
{
    if i < 0 || pos < 0 || pos > input.len() {
        None
    } else if i >= parts.len() {
        if pos == input.len() {
            Some(b)
        } else {
            None
        }
    } else {
        match parts[i] {
            PartModel::Lit(lit) => if occurs_at(input, lit, pos) {
                match_from(parts, input, i + 1, pos + lit.len(), b)
            } else {
                None
            },
            PartModel::Var(name) => if i + 1 < parts.len() && parts[i + 1] is Lit {
                let next = parts[i + 1]->Lit_0;
                match first_occurrence(input, next, pos) {
                    None => None,
                    Some(at) => if at == pos {
                        None
                    } else {
                        match_from(
                            parts,
                            input,
                            i + 1,
                            at,
                            insert_sorted(b, name, input.subrange(pos, at)),
                        )
                    },
                }
            } else {
                if pos == input.len() {
                    None
                } else {
                    match_from(
                        parts,
                        input,
                        i + 1,
                        input.len() as int,
                        insert_sorted(b, name, input.subrange(pos, input.len() as int)),
                    )
                }
            },
        }
    }
}

/// The leftmost occurrence of `p` in `s` at or after `from`.
pub open spec fn first_occurrence(s: Seq<char>, p: Seq<char>, from: int) -> Option<int>
    decreases s.len() + 1 - from,
{
    if from < 0 || from > s.len() {
        None
    } else if occurs_at(s, p, from) {
        Some(from)
    } else {
        first_occurrence(s, p, from + 1)
    }
}

/// What `first_occurrence` finds: an occurrence at or after `from`, with none
/// before it.
pub proof fn lemma_first_occurrence(s: Seq<char>, p: Seq<char>, from: int)
    requires
        0 <= from,
    ensures
        match first_occurrence(s, p, from) {
            Some(k) => from <= k && occurs_at(s, p, k) && forall|j: int|
                from <= j < k ==> !occurs_at(s, p, j),
            None => forall|k: int| from <= k ==> !occurs_at(s, p, k),
        },
    decreases s.len() + 1 - from,
{
    if from <= s.len() && !occurs_at(s, p, from) {
        lemma_first_occurrence(s, p, from + 1);
    }
}

/// Expanding `parts[i..]` with `b`: `None` if a variable is unbound.
pub open spec fn expand_from(parts: Seq<PartModel>, i: int, b: Seq<(Seq<char>, Seq<char>)>) -> Option<Seq<char>>
    decreases parts.len() - i,
{
    if i < 0 || i >= parts.len() {
        Some(Seq::empty())
    } else {
        let head = match parts[i] {
            PartModel::Lit(lit) => Some(lit),
            PartModel::Var(name) => lookup(b, name),
        };
        match (head, expand_from(parts, i + 1, b)) {
            (Some(h), Some(t)) => Some(h + t),
            _ => None,
        }
    }
}

/// The variable names of a template, in order.
pub open spec fn template_vars(parts: Seq<PartModel>) -> Seq<Seq<char>>
    decreases parts.len(),
{
    if parts.len() == 0 {
        Seq::empty()
    } else {
        let p = template_vars(parts.drop_last());
        match parts.last() {
            PartModel::Var(n) => p.push(n),
            PartModel::Lit(_) => p,
        }
    }
}

/// No variable name occurs twice.
pub open spec fn vars_distinct(parts: Seq<PartModel>) -> bool {
    forall|i: int, j: int|
        0 <= i < j < parts.len() && (#[trigger] parts[i]) is Var && (#[trigger] parts[j]) is Var
            ==> parts[i]->Var_0 != parts[j]->Var_0
}

/// A capture run over `parts[i..]` leaves alone every name that does not
/// appear as a variable there.
proof fn lemma_match_keeps(
    parts: Seq<PartModel>,
    input: Seq<char>,
    i: int,
    pos: int,
    b: Seq<(Seq<char>, Seq<char>)>,
    n: Seq<char>,
)
    requires
        keys_sorted(b),
        match_from(parts, input, i, pos, b) is Some,
        forall|j: int| i <= j < parts.len() ==> parts[j] != PartModel::Var(n),
    ensures
        lookup(match_from(parts, input, i, pos, b).unwrap(), n) == lookup(b, n),
    decreases parts.len() - i,
{
    if i >= 0 && i < parts.len() && 0 <= pos <= input.len() {
        match parts[i] {
            PartModel::Lit(lit) => {
                lemma_match_keeps(parts, input, i + 1, pos + lit.len(), b, n);
            },
            PartModel::Var(name) => {
                if i + 1 < parts.len() && parts[i + 1] is Lit {
                    let next = parts[i + 1]->Lit_0;
                    let at = first_occurrence(input, next, pos).unwrap();
                    lemma_first_occurrence(input, next, pos);
                    let v = input.subrange(pos, at);
                    lemma_insert_sorted(b, name, v);
                    lemma_match_keeps(parts, input, i + 1, at, insert_sorted(b, name, v), n);
                } else {
                    let v = input.subrange(pos, input.len() as int);
                    lemma_insert_sorted(b, name, v);
                    lemma_match_keeps(
                        parts,
                        input,
                        i + 1,
                        input.len() as int,
                        insert_sorted(b, name, v),
                        n,
                    );
                }
            },
        }
    }
}

/// Expanding `parts[i..]` with what a successful match of `input[pos..]`
/// captured gives `input[pos..]` back.
#[verifier::rlimit(40)]
proof fn lemma_match_then_expand(
    parts: Seq<PartModel>,
    input: Seq<char>,
    i: int,
    pos: int,
    b: Seq<(Seq<char>, Seq<char>)>,
)
    requires
        keys_sorted(b),
        vars_distinct(parts),
        0 <= i,
        match_from(parts, input, i, pos, b) is Some,
    ensures
        expand_from(parts, i, match_from(parts, input, i, pos, b).unwrap()) == Some(
            input.subrange(pos, input.len() as int),
        ),
    decreases parts.len() - i,
{
    let bf = match_from(parts, input, i, pos, b).unwrap();
    if i >= parts.len() {
        assert(input.subrange(pos, input.len() as int) =~= Seq::<char>::empty());
    } else {
        match parts[i] {
            PartModel::Lit(lit) => {
                lemma_match_then_expand(parts, input, i + 1, pos + lit.len(), b);
                assert(lit + input.subrange(pos + lit.len(), input.len() as int) =~= input.subrange(
                    pos,
                    input.len() as int,
                ));
            },
            PartModel::Var(name) => {
                assert forall|j: int| i + 1 <= j < parts.len() implies parts[j] != PartModel::Var(
                    name,
                ) by {
                    if parts[j] == PartModel::Var(name) {
                        assert(parts[i] is Var && parts[j] is Var);
                    }
                }
                if i + 1 < parts.len() && parts[i + 1] is Lit {
                    let next = parts[i + 1]->Lit_0;
                    let at = first_occurrence(input, next, pos).unwrap();
                    lemma_first_occurrence(input, next, pos);
                    let v = input.subrange(pos, at);
                    lemma_insert_sorted(b, name, v);
                    let b2 = insert_sorted(b, name, v);
                    lemma_match_keeps(parts, input, i + 1, at, b2, name);
                    lemma_match_then_expand(parts, input, i + 1, at, b2);
                    assert(v + input.subrange(at, input.len() as int) =~= input.subrange(
                        pos,
                        input.len() as int,
                    ));
                } else {
                    let v = input.subrange(pos, input.len() as int);
                    lemma_insert_sorted(b, name, v);
                    let b2 = insert_sorted(b, name, v);
                    lemma_match_keeps(parts, input, i + 1, input.len() as int, b2, name);
                    lemma_match_then_expand(parts, input, i + 1, input.len() as int, b2);
                    assert(v + input.subrange(input.len() as int, input.len() as int) =~= v);
                }
            },
        }
    }
}

/// Expanding a template with the bindings captured from a matching
/// identifier gives that identifier back, when no variable name repeats.
pub proof fn lemma_expand_inverts_match(t: &UriTemplate, input: Seq<char>)
    requires
        vars_distinct(t@),
        match_from(t@, input, 0, 0, Seq::empty()) is Some,
    ensures
        expand_from(t@, 0, match_from(t@, input, 0, 0, Seq::empty()).unwrap()) == Some(input),
{
    lemma_match_then_expand(t@, input, 0, 0, Seq::empty());
    assert(input.subrange(0, input.len() as int) =~= input);
}

/// A constrained RFC 6570 URI template — Level 1 `{var}` expansion only.
///
/// Literal text matches verbatim, each `{var}` captures the run up to the next
/// literal (leftmost occurrence), and a final `{var}` captures the remainder.
/// Captures must be non-empty; adjacent variables are rejected at construction.
pub struct UriTemplate {
    parts: Vec<Part>,
    source: String,
}

/// Error parsing a [`UriTemplate`].
#[derive(Debug, Clone)]
pub struct TemplateError(String);

impl TemplateError {
    /// The reason.
    pub closed spec fn spec_message(&self) -> Seq<char> {
        self.0@
    }

    /// The reason.
    pub fn message(&self) -> (r: &str)
        ensures
            r@ == self.spec_message(),
    {
        self.0.as_str()
    }
}

fn first_char_from(s: &[char], c: char, from: usize) -> (r: Option<usize>)
    requires
        from <= s@.len(),
    ensures
        match r {
            Some(i) => first_from(s@, c, from as int) == Some(i as int) && from <= i < s@.len()
                && s@[i as int] == c,
            None => first_from(s@, c, from as int) is None,
        },
{
    let mut i = from;
    while i < s.len()
        invariant
            from <= i <= s@.len(),
            first_from(s@, c, from as int) == first_from(s@, c, i as int),
        decreases s@.len() - i,
    {
        if s[i] == c {
            return Some(i);
        }
        i = i + 1;
    }
    None
}

fn is_var_char(c: char) -> (r: bool)
    ensures
        r == (('a' <= c && c <= 'z') || ('A' <= c && c <= 'Z') || ('0' <= c && c <= '9') || c
            == '_'),
{
    ('a' <= c && c <= 'z') || ('A' <= c && c <= 'Z') || ('0' <= c && c <= '9') || c == '_'
}

fn is_valid_var_name(name: &[char]) -> (r: bool)
    ensures
        r == valid_var_name(name@),
{
    if name.len() == 0 {
        return false;
    }
    let mut i: usize = 0;
    while i < name.len()
        invariant
            i <= name@.len(),
            forall|j: int| 0 <= j < i ==> {
                let c = #[trigger] name@[j];
                ('a' <= c && c <= 'z') || ('A' <= c && c <= 'Z') || ('0' <= c && c <= '9') || c
                    == '_'
            },
        decreases name@.len() - i,
    {
        if !is_var_char(name[i]) {
            return false;
        }
        i = i + 1;
    }
    true
}

fn message3(a: &str, mid: &[char], b: &str) -> (r: String)
    ensures
        r@ == a@ + mid@ + b@,
{
    let mut s = copy_str(a);
    let m = string_from(mid);
    s.append(m.as_str());
    s.append(b);
    s
}

fn message5(a: &str, x: &[char], b: &str, y: &[char], c: &str) -> (r: String)
    ensures
        r@ == a@ + x@ + b@ + y@ + c@,
{
    let mut s = copy_str(a);
    let xs = string_from(x);
    s.append(xs.as_str());
    s.append(b);
    let ys = string_from(y);
    s.append(ys.as_str());
    s.append(c);
    s
}

fn slice_to_string(s: &[char], from: usize, to: usize) -> (r: String)
    requires
        from <= to <= s@.len(),
    ensures
        r@ == s@.subrange(from as int, to as int),
{
    let mut out = String::new();
    let mut i = from;
    while i < to
        invariant
            from <= i <= to,
            to <= s@.len(),
            out@ == s@.subrange(from as int, i as int),
        decreases to - i,
    {
        out.push(s[i]);
        assert(out@ =~= s@.subrange(from as int, i + 1));
        i = i + 1;
    }
    out
}

impl View for UriTemplate {
    type V = Seq<PartModel>;

    closed spec fn view(&self) -> Seq<PartModel> {
        parts_view(self.parts@)
    }
}

impl UriTemplate {
    /// The template's source text.
    pub closed spec fn spec_source(&self) -> Seq<char> {
        self.source@
    }

    /// Parse a template, rejecting malformed or ambiguous forms.
    pub fn parse(template: &str) -> (r: Result<UriTemplate, TemplateError>)
        ensures
            match r {
                Ok(t) => parse_template(template@) == Ok::<Seq<PartModel>, Seq<char>>(t@)
                    && t.spec_source() == template@,
                Err(e) => parse_template(template@) == Err::<Seq<PartModel>, Seq<char>>(
                    e.spec_message(),
                ),
            },
    {
        let src = chars_of(template);
        let n = src.len();
        let mut parts: Vec<Part> = Vec::new();
        let mut offset: usize = 0;
        loop
            invariant_except_break
                n == src@.len(),
                src@ == template@,
                offset <= n,
                split_parts(src@, 0) == (match split_parts(src@, offset as int) {
                    Ok(tail) => Ok(parts_view(parts@) + tail),
                    Err(e) => Err(e),
                }),
            ensures
                n == src@.len(),
                src@ == template@,
                split_parts(src@, 0) == Ok::<Seq<PartModel>, Seq<char>>(parts_view(parts@)),
            decreases n - offset,
        {
            let ghost before = parts@;
            match first_char_from(src.as_slice(), '{', offset) {
                None => {
                    if offset < n {
                        parts.push(Part::Lit(slice_to_string(src.as_slice(), offset, n)));
                    }
                    proof {
                        assert(parts_view(parts@) =~= parts_view(before) + (if (offset as int)
                            < src@.len() {
                            seq![PartModel::Lit(src@.subrange(offset as int, src@.len() as int))]
                        } else {
                            Seq::<PartModel>::empty()
                        }));
                    }
                    break ;
                },
                Some(open) => {
                    if open > offset {
                        parts.push(Part::Lit(slice_to_string(src.as_slice(), offset, open)));
                    }
                    match first_char_from(src.as_slice(), '}', open) {
                        None => {
                            return Err(
                                TemplateError(message3("unclosed '{' in `", src.as_slice(), "`")),
                            );
                        },
                        Some(close) => {
                            assert(open < close);
                            let name = src.as_slice().split_at(close).0.split_at(open + 1).1;
                            assert(name@ =~= src@.subrange(open + 1, close as int));
                            if !is_valid_var_name(name) {
                                return Err(
                                    TemplateError(
                                        message5(
                                            "invalid variable `{",
                                            name,
                                            "}` in `",
                                            src.as_slice(),
                                            "`",
                                        ),
                                    ),
                                );
                            }
                            parts.push(Part::Var(slice_to_string(src.as_slice(), open + 1, close)));
                            proof {
                                let lit = if open > offset {
                                    seq![PartModel::Lit(src@.subrange(offset as int, open as int))]
                                } else {
                                    Seq::<PartModel>::empty()
                                };
                                assert(parts_view(parts@) =~= parts_view(before) + lit + seq![
                                    PartModel::Var(src@.subrange(open + 1, close as int)),
                                ]);
                                match split_parts(src@, close + 1) {
                                    Ok(tail) => {
                                        assert(parts_view(before) + (lit + seq![
                                            PartModel::Var(src@.subrange(open + 1, close as int)),
                                        ] + tail) =~= parts_view(parts@) + tail);
                                    },
                                    Err(_) => {},
                                }
                            }
                            offset = close + 1;
                        },
                    }
                },
            }
        }
        // the whole source is split; now refuse adjacent variables
        let m = parts.len();
        let mut i: usize = 1;
        while i < m
            invariant
                m == parts@.len(),
                1 <= i,
                src@ == template@,
                split_parts(src@, 0) == Ok::<Seq<PartModel>, Seq<char>>(parts_view(parts@)),
                forall|a: int, b: int|
                    0 <= a && b == a + 1 && b < i && b < m ==> !((#[trigger] parts_view(parts@)[a]) is Var
                        && (#[trigger] parts_view(parts@)[b]) is Var),
            decreases m - i,
        {
            let adjacent = match (&parts[i - 1], &parts[i]) {
                (Part::Var(_), Part::Var(_)) => true,
                _ => false,
            };
            if adjacent {
                proof {
                    assert(parts_view(parts@)[i - 1] is Var && parts_view(parts@)[i as int] is Var);
                    assert(has_adjacent_vars(parts_view(parts@)));
                }
                return Err(
                    TemplateError(
                        message3("adjacent variables are ambiguous in `", src.as_slice(), "`"),
                    ),
                );
            }
            i = i + 1;
        }
        proof {
            assert(!has_adjacent_vars(parts_view(parts@)));
        }
        Ok(UriTemplate { parts, source: copy_str(template) })
    }

    /// The template's source text.
    pub fn source(&self) -> (r: &str)
        ensures
            r@ == self.spec_source(),
    {
        self.source.as_str()
    }

    /// The variable names, in template order.
    pub fn variables(&self) -> (r: Vec<String>)
        ensures
            r@.map_values(|s: String| s@) == template_vars(self@),
    {
        let mut out: Vec<String> = Vec::new();
        let mut i: usize = 0;
        while i < self.parts.len()
            invariant
                i <= self.parts@.len(),
                out@.map_values(|s: String| s@) == template_vars(self@.take(i as int)),
            decreases self.parts@.len() - i,
        {
            let ghost before = out@.map_values(|s: String| s@);
            proof {
                assert(self@.take(i + 1).drop_last() =~= self@.take(i as int));
                assert(self@.take(i + 1).last() == self.parts@[i as int]@);
            }
            match &self.parts[i] {
                Part::Var(name) => {
                    out.push(copy_str(name.as_str()));
                    proof {
                        assert(out@.map_values(|s: String| s@) =~= before.push(name@));
                    }
                },
                Part::Lit(_) => {},
            }
            i = i + 1;
        }
        proof {
            assert(self@.take(self.parts@.len() as int) =~= self@);
        }
        out
    }

    /// Expand the template with the given bindings, or `None` if a variable
    /// is missing.
    pub fn expand(&self, bindings: &Bindings) -> (r: Option<String>)
        ensures
            match r {
                Some(s) => expand_from(self@, 0, bindings@) == Some(s@),
                None => expand_from(self@, 0, bindings@) is None,
            },
    {
        let n = self.parts.len();
        let mut pieces: Vec<char> = Vec::new();
        let mut i: usize = 0;
        while i < n
            invariant
                n == self@.len(),
                i <= n,
                expand_from(self@, 0, bindings@) == (match expand_from(self@, i as int, bindings@) {
                    Some(t) => Some(pieces@ + t),
                    None => None::<Seq<char>>,
                }),
            decreases n - i,
        {
            let piece: &str = match &self.parts[i] {
                Part::Lit(lit) => lit.as_str(),
                Part::Var(var) => match bindings.get(var.as_str()) {
                    Some(v) => v,
                    None => {
                        return None;
                    },
                },
            };
            let cs = chars_of(piece);
            let ghost before = pieces@;
            let mut k: usize = 0;
            while k < cs.len()
                invariant
                    k <= cs@.len(),
                    pieces@ == before + cs@.subrange(0, k as int),
                decreases cs@.len() - k,
            {
                pieces.push(cs[k]);
                assert(pieces@ =~= before + cs@.subrange(0, k + 1));
                k = k + 1;
            }
            proof {
                assert(cs@.subrange(0, cs@.len() as int) =~= cs@);
                match expand_from(self@, i + 1, bindings@) {
                    Some(t) => {
                        assert(before + (cs@ + t) =~= pieces@ + t);
                    },
                    None => {},
                }
            }
            i = i + 1;
        }
        proof {
            assert(pieces@ + Seq::<char>::empty() =~= pieces@);
        }
        Some(string_from(pieces.as_slice()))
    }

    /// Match `input` against the template, capturing its variables.
    pub fn match_str(&self, input: &str) -> (r: Option<Bindings>)
        ensures
            match r {
                Some(b) => match_from(self@, input@, 0, 0, Seq::empty()) == Some(b@),
                None => match_from(self@, input@, 0, 0, Seq::empty()) is None,
            },
    {
        let cs = chars_of(input);
        let n = self.parts.len();
        let mut bindings = Bindings::new();
        let mut pos: usize = 0;
        let mut i: usize = 0;
        while i < n
            invariant
                n == self@.len(),
                cs@ == input@,
                i <= n,
                pos <= cs@.len(),
                match_from(self@, input@, 0, 0, Seq::empty()) == match_from(self@, input@, i as int, pos as int, bindings@),
            decreases n - i,
        {
            match &self.parts[i] {
                Part::Lit(lit) => {
                    let lc = chars_of(lit.as_str());
                    if crate::text::matches_at(cs.as_slice(), lc.as_slice(), pos) {
                        assert(occurs_at(cs@, lc@, pos as int));
                        let ll = lc.len();
                        let cl = cs.len();
                        assert(pos + ll <= cl);
                        pos = pos + ll;
                    } else {
                        return None;
                    }
                },
                Part::Var(name) => {
                    let next_lit: Option<&String> = if i + 1 < n {
                        match &self.parts[i + 1] {
                            Part::Lit(next) => Some(next),
                            Part::Var(_) => None,
                        }
                    } else {
                        None
                    };
                    match next_lit {
                        Some(next) => {
                            let nc = chars_of(next.as_str());
                            match find_from(cs.as_slice(), nc.as_slice(), pos) {
                                None => {
                                    proof {
                                        lemma_first_occurrence(input@, nc@, pos as int);
                                    }
                                    return None;
                                },
                                Some(at) => {
                                    proof {
                                        lemma_first_occurrence(input@, nc@, pos as int);
                                        match first_occurrence(input@, nc@, pos as int) {
                                            Some(k) => {
                                                if k < at {
                                                    assert(!occurs_at(input@, nc@, k));
                                                } else if k > at {
                                                    assert(!occurs_at(input@, nc@, at as int));
                                                }
                                            },
                                            None => {
                                                assert(!occurs_at(input@, nc@, at as int));
                                            },
                                        }
                                    }
                                    if at == pos {
                                        return None;
                                    }
                                    let captured = slice_to_string(cs.as_slice(), pos, at);
                                    bindings.insert(name.as_str(), captured.as_str());
                                    pos = at;
                                },
                            }
                        },
                        None => {
                            if pos == cs.len() {
                                return None;
                            }
                            let captured = slice_to_string(cs.as_slice(), pos, cs.len());
                            bindings.insert(name.as_str(), captured.as_str());
                            pos = cs.len();
                        },
                    }
                },
            }
            i = i + 1;
        }
        if pos == cs.len() {
            Some(bindings)
        } else {
            None
        }
    }

    /// Bindings when `iri` matches this template.
    pub fn matches(&self, iri: &Iri) -> (r: Option<Bindings>)
        ensures
            match r {
                Some(b) => match_from(self@, iri@, 0, 0, Seq::empty()) == Some(b@),
                None => match_from(self@, iri@, 0, 0, Seq::empty()) is None,
            },
    {
        self.match_str(iri.as_str())
    }
}

impl Grammar for UriTemplate {
    fn match_iri(&self, iri: &Iri) -> (r: Option<Bindings>)
        ensures
            match r {
                Some(b) => match_from(self@, iri@, 0, 0, Seq::empty()) == Some(b@),
                None => match_from(self@, iri@, 0, 0, Seq::empty()) is None,
            },
    {
        self.matches(iri)
    }

    fn pattern(&self) -> (r: String)
        ensures
            r@ == self.spec_source(),
    {
        copy_str(self.source.as_str())
    }
}

} // verus!
