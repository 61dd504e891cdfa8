//! Validated absolute IRIs, and the Turtle `IRIREF` safety check and escaper.

use std::borrow::Cow;

use vstd::prelude::*;

use crate::text::{chars_of, string_from};

verus! {

/// Whether `c` is one of the characters an RDF `IRIREF` forbids: `#x00-#x20`
/// plus `<`, `>`, `"`, `{`, `}`, `|`, `^`, `` ` `` and `\`.
pub open spec fn iri_forbidden(c: char) -> bool {
    ||| (c as u32) <= 0x20
    ||| c == '<' || c == '>' || c == '"' || c == '{' || c == '}'
    ||| c == '|' || c == '^' || c == '`' || c == '\\'
}

/// Whether every character of `s` may appear literally inside an `IRIREF`.
pub open spec fn iri_safe(s: Seq<char>) -> bool {
    forall|i: int| 0 <= i < s.len() ==> !iri_forbidden(#[trigger] s[i])
}

/// The upper-case hexadecimal digit for `d` (`0..16`).
pub open spec fn hex_upper(d: u32) -> char {
    if d < 10 {
        (('0' as u32) + d) as char
    } else {
        (('A' as u32) + d - 10) as char
    }
}

/// How one character is written by the escaper: a forbidden character (all of
/// them are ASCII, so one UTF-8 byte) becomes `%XX`, anything else stays.
pub open spec fn escape_char(c: char) -> Seq<char> {
    if iri_forbidden(c) {
        seq!['%', hex_upper((c as u32) / 16), hex_upper((c as u32) % 16)]
    } else {
        seq![c]
    }
}

/// The escaped form of a whole fragment, character by character.
pub open spec fn escape_seq(s: Seq<char>) -> Seq<char>
    decreases s.len(),
{
    if s.len() == 0 {
        Seq::empty()
    } else {
        escape_seq(s.drop_last()) + escape_char(s.last())
    }
}

fn is_iri_forbidden(c: char) -> (r: bool)
    ensures
        r == iri_forbidden(c),
{
    let n = c as u32;
    n <= 0x20 || c == '<' || c == '>' || c == '"' || c == '{' || c == '}' || c == '|' || c
        == '^' || c == '`' || c == '\\'
}

fn hex_digit_upper(d: u32) -> (c: char)
    requires
        d < 16,
    ensures
        c == hex_upper(d),
{
    let digits: [char; 16] = [
        '0', '1', '2', '3', '4', '5', '6', '7', '8', '9', 'A', 'B', 'C', 'D', 'E', 'F',
    ];
    let c = digits[d as usize];
    assert(c == hex_upper(d));
    c
}

/// Whether `s` can be written literally inside an RDF `IRIREF` (`<…>`).
///
/// A syntactic check on one fragment, not IRI validation — use [`Iri::parse`]
/// for that.
pub fn is_iri_safe(s: &str) -> (r: bool)
    ensures
        r == iri_safe(s@),
{
    let cs = chars_of(s);
    let mut i: usize = 0;
    while i < cs.len()
        invariant
            cs@ == s@,
            i <= cs@.len(),
            forall|j: int| 0 <= j < i ==> !iri_forbidden(#[trigger] s@[j]),
        decreases cs@.len() - i,
    {
        if is_iri_forbidden(cs[i]) {
            return false;
        }
        i = i + 1;
    }
    true
}

/// Escaping a safe fragment leaves it as it is.
pub proof fn lemma_escape_seq_of_safe(s: Seq<char>)
    requires
        iri_safe(s),
    ensures
        escape_seq(s) == s,
    decreases s.len(),
{
    if s.len() > 0 {
        assert(!iri_forbidden(s[s.len() - 1]));
        assert(iri_safe(s.drop_last()));
        lemma_escape_seq_of_safe(s.drop_last());
        assert(s.drop_last().push(s.last()) =~= s);
    }
}

/// Percent-encode the characters an RDF `IRIREF` cannot carry literally.
///
/// Encodes exactly the set [`is_iri_safe`] rejects, in upper-case `%XX` form. A
/// string that is already safe is returned **borrowed** — the very same slice.
/// Not injective: `%` itself is left alone.
pub fn escape_iri_fragment(s: &str) -> (r: Cow<'_, str>)
    ensures
        r@ == escape_seq(s@),
        iri_safe(s@) ==> r == Cow::<'_, str>::Borrowed(s),
{
    if is_iri_safe(s) {
        proof {
            lemma_escape_seq_of_safe(s@);
        }
        return Cow::Borrowed(s);
    }
    let cs = chars_of(s);
    let mut out: Vec<char> = Vec::new();
    let mut i: usize = 0;
    while i < cs.len()
        invariant
            cs@ == s@,
            i <= cs@.len(),
            out@ == escape_seq(s@.subrange(0, i as int)),
        decreases cs@.len() - i,
    {
        let c = cs[i];
        proof {
            assert(s@.subrange(0, i + 1).drop_last() =~= s@.subrange(0, i as int));
        }
        if is_iri_forbidden(c) {
            let n = c as u32;
            out.push('%');
            out.push(hex_digit_upper(n / 16));
            out.push(hex_digit_upper(n % 16));
        } else {
            out.push(c);
        }
        proof {
            assert(out@ =~= escape_seq(s@.subrange(0, i as int)) + escape_char(c));
        }
        i = i + 1;
    }
    proof {
        assert(s@.subrange(0, cs@.len() as int) =~= s@);
    }
    Cow::Owned(string_from(out.as_slice()))
}

/// What the escaper writes is always safe in an `IRIREF`.
pub proof fn lemma_escape_output_is_safe(s: Seq<char>)
    ensures
        iri_safe(escape_seq(s)),
    decreases s.len(),
{
    if s.len() > 0 {
        lemma_escape_output_is_safe(s.drop_last());
        let c = s.last();
        let e = escape_char(c);
        if iri_forbidden(c) {
            let n = c as u32;
            assert(n <= 0x7f);
            assert(!iri_forbidden(hex_upper(n / 16)));
            assert(!iri_forbidden(hex_upper(n % 16)));
        }
        assert forall|i: int| 0 <= i < e.len() implies !iri_forbidden(#[trigger] e[i]) by {}
        let a = escape_seq(s.drop_last());
        assert forall|i: int| 0 <= i < (a + e).len() implies !iri_forbidden(#[trigger] (a + e)[i]) by {
            if i < a.len() {
                assert((a + e)[i] == a[i]);
            } else {
                assert((a + e)[i] == e[i - a.len()]);
            }
        }
    }
}

/// The validation outcome of the RFC 3987 absolute-IRI grammar on `s`:
/// `None` when `s` is a valid absolute IRI, otherwise the parser's message.
pub uninterp spec fn iri_parse_error(s: Seq<char>) -> Option<Seq<char>>;

/// Validates `s` with `oxiri::Iri::parse` (RFC 3987, absolute form).
/// Trusted: the outcome, and the error's text, are exactly [`iri_parse_error`]
/// of the input — a pure function of the string.
#[verifier::external_body]
fn oxiri_validate(s: &str) -> (r: Result<(), String>)
    ensures
        match r {
            Ok(()) => iri_parse_error(s@) is None,
            Err(m) => iri_parse_error(s@) == Some(m@),
        },
{
    match oxiri::Iri::parse(s) {
        Ok(_) => Ok(()),
        Err(e) => Err(e.to_string()),
    }
}

/// A validated, absolute RDF IRI. Construction validates against RFC 3987
/// (absolute form), so an `Iri` is always a well-formed resource identifier.
#[derive(Debug, Clone)]
pub struct Iri(String);

/// Error returned when a string is not a valid absolute IRI.
#[derive(Debug, Clone)]
pub struct IriError(String);

/// How an IRI error reads: `invalid IRI: <explanation>`.
pub open spec fn iri_error_text(message: Seq<char>) -> Seq<char> {
    "invalid IRI: "@ + message
}

impl IriError {
    /// The parser's explanation.
    pub closed spec fn spec_message(&self) -> Seq<char> {
        self.0@
    }

    /// The parser's explanation.
    pub fn message(&self) -> (r: &str)
        ensures
            r@ == self.spec_message(),
    {
        self.0.as_str()
    }

    /// `invalid IRI: <explanation>`.
    pub fn to_string(&self) -> (r: String)
        ensures
            r@ == iri_error_text(self.spec_message()),
    {
        crate::text::concat_str("invalid IRI: ", self.0.as_str())
    }
}

impl View for Iri {
    type V = Seq<char>;

    closed spec fn view(&self) -> Seq<char> {
        self.0@
    }
}

impl Iri {
    /// Every `Iri` holds a string the absolute-IRI grammar accepts.
    pub closed spec fn wf(&self) -> bool {
        iri_parse_error(self.0@) is None
    }

    /// Parse and validate an absolute IRI.
    pub fn parse(value: &str) -> (r: Result<Iri, IriError>)
        ensures
            match r {
                Ok(iri) => iri_parse_error(value@) is None && iri@ == value@ && iri.wf(),
                Err(e) => iri_parse_error(value@) == Some(e.spec_message()),
            },
    {
        match oxiri_validate(value) {
            Ok(()) => Ok(Iri(value.to_owned())),
            Err(m) => Err(IriError(m)),
        }
    }

    /// The IRI as a string slice.
    pub fn as_str(&self) -> (r: &str)
        ensures
            r@ == self@,
    {
        self.0.as_str()
    }

    /// A copy of this IRI.
    pub fn duplicate(&self) -> (r: Iri)
        ensures
            r@ == self@,
            self.wf() ==> r.wf(),
    {
        Iri(self.0.clone())
    }

    /// Whether two IRIs are the same string.
    pub fn same_as(&self, other: &Iri) -> (r: bool)
        ensures
            r == (self@ == other@),
    {
        self.0 == other.0
    }
}

impl std::str::FromStr for Iri {
    type Err = IriError;

    /// Parse and validate an absolute IRI, as [`Iri::parse`].
    fn from_str(s: &str) -> (r: Result<Iri, IriError>)
        ensures
            match r {
                Ok(iri) => iri_parse_error(s@) is None && iri@ == s@ && iri.wf(),
                Err(e) => iri_parse_error(s@) == Some(e.spec_message()),
            },
    {
        Iri::parse(s)
    }
}

} // verus!
