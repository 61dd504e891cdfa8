//! Small closure-backed endpoints: what they compute and how they describe
//! themselves. Each `snake_case` builtin is the `lowerCamelCase` endpoint of
//! the same name (`to_upper` is `toUpper`).

use vstd::prelude::*;
use vstd::utf8::encode_utf8;

use crate::describe::{ArgSpec, ArgView, Description, DescriptionView, InputSource, KindView};
use crate::error::Error;
use crate::grammar::Bindings;
use crate::repr::{Expiry, ReprType, Representation};
use crate::sorted::lookup;
use crate::text::{copy_str, views_of};
use crate::tokens::split_lines;
use crate::verb::Verb;
use crate::vocab::join_with;

verus! {

/// The media type every builtin answers with.
pub const TEXT_PLAIN_UTF8: &'static str = "text/plain;charset=utf-8";

/// What `str::to_uppercase` returns for a string: its Unicode upper-case
/// mapping, character by character (some characters map to several).
pub uninterp spec fn upper_case(s: Seq<char>) -> Seq<char>;

/// `str::to_uppercase`: the Unicode upper-case mapping of `s`, which depends
/// on `s` alone; the mapping itself is not restated here.
#[verifier::external_body]
fn upper(s: &str) -> (r: String)
    ensures
        r@ == upper_case(s@),
{
    s.to_uppercase()
}

/// The newline-separated items of `s` in reverse order.
pub open spec fn reversed_lines(s: Seq<char>) -> Seq<char> {
    join_with(split_lines(s).reverse(), "\n"@)
}

/// The type every builtin answers with: `text/plain;charset=utf-8`.
fn text_plain_utf8() -> (r: ReprType)
    ensures
        r.spec_media_type() == "text/plain"@,
        r.spec_params() == seq![("charset"@, "utf-8"@)],
{
    let t = ReprType::new("text/plain").with_param("charset", "utf-8");
    assert(t.spec_params() =~= seq![("charset"@, "utf-8"@)]);
    t
}

/// A permanently cacheable plain-text answer holding `text`.
fn plain_answer(text: &str) -> (r: Representation)
    ensures
        r.repr_type.spec_media_type() == "text/plain"@,
        r.repr_type.spec_params() == seq![("charset"@, "utf-8"@)],
        r.bytes@ == encode_utf8(text@),
        r.expiry == Expiry::Never,
        r.spec_threads() == Set::<Seq<char>>::empty(),
{
    Representation::new(text_plain_utf8(), vstd::slice::slice_to_vec(text.as_bytes())).cacheable()
}

/// The upper-cased text.
pub fn upper_cased(input: &str) -> (r: String)
    ensures
        r@ == upper_case(input@),
{
    upper(input)
}

/// The answer of `toUpper` to the text `input`.
pub fn to_upper_answer(input: &str) -> (r: Representation)
    ensures
        r.repr_type.spec_media_type() == "text/plain"@,
        r.repr_type.spec_params() == seq![("charset"@, "utf-8"@)],
        r.bytes@ == encode_utf8(upper_case(input@)),
        r.expiry == Expiry::Never,
        r.spec_threads() == Set::<Seq<char>>::empty(),
{
    plain_answer(upper_cased(input).as_str())
}

/// The newline-separated items of `input` in reverse order, joined by
/// newlines again.
pub fn reverse_lines(input: &str) -> (r: String)
    ensures
        r@ == reversed_lines(input@),
{
    let cs = crate::text::chars_of(input);
    let lines = crate::tokens::lines_of(cs.as_slice());
    let ghost parts = split_lines(input@).reverse();
    let n = lines.len();
    let mut out = String::new();
    let mut i: usize = 0;
    while i < n
        invariant
            n == lines@.len(),
            n == split_lines(input@).len(),
            forall|k: int| 0 <= k < n ==> (#[trigger] lines@[k])@ == split_lines(input@)[k],
            parts == split_lines(input@).reverse(),
            i <= n,
            out@ == join_with(parts.take(i as int), "\n"@),
        decreases n - i,
    {
        proof {
            assert(parts.take(i + 1).drop_last() =~= parts.take(i as int));
            assert(parts[i as int] == split_lines(input@)[n - 1 - i]);
        }
        if i > 0 {
            out.push('\n');
        }
        let line = crate::text::string_from(lines[n - 1 - i].as_slice());
        out.append(line.as_str());
        proof {
            reveal_strlit("\n");
            if i == 0 {
                assert(out@ =~= join_with(parts.take(1), "\n"@));
            } else {
                assert(out@ =~= join_with(parts.take(i + 1), "\n"@));
            }
        }
        i = i + 1;
    }
    proof {
        assert(parts.take(n as int) =~= parts);
    }
    out
}

/// The answer of `reverseList` to the text `input`.
pub fn reverse_list_answer(input: &str) -> (r: Representation)
    ensures
        r.repr_type.spec_media_type() == "text/plain"@,
        r.repr_type.spec_params() == seq![("charset"@, "utf-8"@)],
        r.bytes@ == encode_utf8(reversed_lines(input@)),
        r.expiry == Expiry::Never,
{
    plain_answer(reverse_lines(input).as_str())
}

/// The answer of `echo`: the `message` binding, or a missing-argument error
/// when the resolving grammar captured none.
pub fn echo_answer(bindings: &Bindings) -> (r: Result<Representation, Error>)
    ensures
        match lookup(bindings@, "message"@) {
            Some(m) => r matches Ok(rep) && rep.bytes@ == encode_utf8(m)
                && rep.repr_type.spec_media_type() == "text/plain"@ && rep.repr_type.spec_params()
                == seq![("charset"@, "utf-8"@)] && rep.expiry == Expiry::Never,
            None => r matches Err(Error::MissingArgument(name)) && name@ == "message"@,
        },
{
    match bindings.get("message") {
        Some(m) => Ok(plain_answer(m)),
        None => Err(Error::MissingArgument(copy_str("message"))),
    }
}

/// A required plain argument with a summary.
pub open spec fn summarized_arg(name: Seq<char>, summary: Seq<char>) -> ArgView {
    ArgView {
        name,
        summary,
        required: true,
        source: InputSource::Argument,
        class: None,
        default: None,
        one_of: Seq::empty(),
    }
}

/// A builtin's description: `Source` and `Meta`, one input, plain text out.
pub open spec fn builtin_view(id: Seq<char>, title: Seq<char>, summary: Seq<char>, input: ArgView) -> DescriptionView {
    DescriptionView {
        id,
        title,
        summary,
        verbs: seq![Verb::Source, Verb::Meta],
        inputs: seq![input],
        outputs: seq![TEXT_PLAIN_UTF8@],
        kind: KindView::Endpoint,
        requires: Seq::empty(),
        actions: Seq::empty(),
    }
}

fn builtin(id: &str, title: &str, summary: &str, input: ArgSpec) -> (r: Description)
    ensures
        r@ == builtin_view(id@, title@, summary@, input@),
{
    let r = Description::new(id).title(title).summary(summary).verb(Verb::Source).verb(
        Verb::Meta,
    ).input(input).output(TEXT_PLAIN_UTF8);
    assert(r@ =~= builtin_view(id@, title@, summary@, input@));
    r
}

/// The description of `toUpper`.
pub fn to_upper_description() -> (r: Description)
    ensures
        r@ == builtin_view(
            "toUpper"@,
            "Upper-case"@,
            "Upper-cases the UTF-8 text supplied in the `in` argument."@,
            summarized_arg("in"@, "the text to upper-case"@),
        ),
{
    builtin(
        "toUpper",
        "Upper-case",
        "Upper-cases the UTF-8 text supplied in the `in` argument.",
        ArgSpec::new("in").summary("the text to upper-case"),
    )
}

/// The description of `reverseList`.
pub fn reverse_list_description() -> (r: Description)
    ensures
        r@ == builtin_view(
            "reverseList"@,
            "Reverse list"@,
            "Reverses the order of newline-separated items in the `in` argument."@,
            summarized_arg("in"@, "newline-separated items"@),
        ),
{
    builtin(
        "reverseList",
        "Reverse list",
        "Reverses the order of newline-separated items in the `in` argument.",
        ArgSpec::new("in").summary("newline-separated items"),
    )
}

/// The description of `echo`.
pub fn echo_description() -> (r: Description)
    ensures
        r@ == builtin_view(
            "echo"@,
            "Echo"@,
            "Returns the `message` segment captured from the resource identifier."@,
            ArgView {
                source: InputSource::Binding,
                ..summarized_arg(
                    "message"@,
                    "the text to echo, captured from the path by the resolving grammar"@,
                )
            },
        ),
{
    builtin(
        "echo",
        "Echo",
        "Returns the `message` segment captured from the resource identifier.",
        ArgSpec::new("message").summary(
            "the text to echo, captured from the path by the resolving grammar",
        ).binding(),
    )
}

} // verus!
