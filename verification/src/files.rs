//! The decisions of the capability-confined file endpoint: which request
//! paths it refuses outright, which media type a file name implies, and what
//! it does for each verb. Reading the file, and the symlink-safe containment
//! check against the real filesystem, are the host's.
//!
//! Paths follow Unix semantics: `/` separates segments, a leading `/` makes a
//! path absolute.

use vstd::prelude::*;

use crate::describe::{ArgView, Description, DescriptionView, InputSource, KindView};
use crate::error::Error;
use crate::text::{chars_of, concat_str, copy_str, str_eq, string_from};
use crate::verb::Verb;
use crate::vocab::verb_name;

verus! {

/// The pieces of `s` between `sep` separators (one more than the number of
/// separators).
pub open spec fn split_on(s: Seq<char>, sep: char) -> Seq<Seq<char>>
    decreases s.len(),
{
    if s.len() == 0 {
        seq![Seq::empty()]
    } else {
        let p = split_on(s.drop_last(), sep);
        if s.last() == sep {
            p.push(Seq::empty())
        } else {
            p.update(p.len() - 1, p.last().push(s.last()))
        }
    }
}

proof fn lemma_split_on_len(s: Seq<char>, sep: char)
    ensures
        split_on(s, sep).len() >= 1,
    decreases s.len(),
{
    if s.len() > 0 {
        lemma_split_on_len(s.drop_last(), sep);
    }
}

/// Whether `rel` is absolute.
pub open spec fn is_absolute(rel: Seq<char>) -> bool {
    rel.len() > 0 && rel[0] == '/'
}

/// Whether some segment of `rel` is `..`.
pub open spec fn has_parent_segment(rel: Seq<char>) -> bool {
    exists|k: int| 0 <= k < split_on(rel, '/').len() && #[trigger] split_on(rel, '/')[k] == ".."@
}

/// The message refusing an absolute path.
pub open spec fn absolute_refusal() -> Seq<char> {
    "absolute paths are not allowed"@
}

/// The message refusing a parent-directory segment.
pub open spec fn parent_refusal() -> Seq<char> {
    "parent-directory (`..`) segments are not allowed"@
}

/// The pieces of `s` between `sep` separators.
fn segments_of(s: &[char], sep: char) -> (r: Vec<Vec<char>>)
    ensures
        r@.len() == split_on(s@, sep).len(),
        forall|i: int| 0 <= i < r@.len() ==> (#[trigger] r@[i])@ == split_on(s@, sep)[i],
{
    let mut out: Vec<Vec<char>> = Vec::new();
    let mut cur: Vec<char> = Vec::new();
    let mut i: usize = 0;
    while i < s.len()
        invariant
            i <= s@.len(),
            out@.len() + 1 == split_on(s@.take(i as int), sep).len(),
            forall|k: int| 0 <= k < out@.len() ==> (#[trigger] out@[k])@ == split_on(
                s@.take(i as int),
                sep,
            )[k],
            cur@ == split_on(s@.take(i as int), sep).last(),
        decreases s@.len() - i,
    {
        proof {
            assert(s@.take(i + 1).drop_last() =~= s@.take(i as int));
            lemma_split_on_len(s@.take(i as int), sep);
        }
        let c = s[i];
        if c == sep {
            let mut fresh: Vec<char> = Vec::new();
            std::mem::swap(&mut fresh, &mut cur);
            out.push(fresh);
        } else {
            cur.push(c);
        }
        i = i + 1;
    }
    proof {
        assert(s@.take(s@.len() as int) =~= s@);
        lemma_split_on_len(s@, sep);
    }
    out.push(cur);
    out
}

fn is_dot_dot(seg: &[char]) -> (r: bool)
    ensures
        r == (seg@ == ".."@),
{
    proof {
        reveal_strlit("..");
    }
    let r = seg.len() == 2 && seg[0] == '.' && seg[1] == '.';
    proof {
        if r {
            assert(seg@ =~= ".."@);
        }
    }
    r
}

/// The refusal of a request path: `InvalidArgument` on `path`. Absolute paths
/// are refused first, then any `..` segment; every other relative path
/// passes (containment on disk is checked by the host).
pub fn check_relative_path(rel: &str) -> (r: Result<(), Error>)
    ensures
        match r {
            Ok(()) => !is_absolute(rel@) && !has_parent_segment(rel@),
            Err(e) => e matches Error::InvalidArgument { name, detail } && name@ == "path"@ && (
            if is_absolute(rel@) {
                detail@ == absolute_refusal()
            } else {
                has_parent_segment(rel@) && detail@ == parent_refusal()
            }),
        },
{
    let cs = chars_of(rel);
    if cs.len() > 0 && cs[0] == '/' {
        return Err(
            Error::InvalidArgument {
                name: copy_str("path"),
                detail: copy_str("absolute paths are not allowed"),
            },
        );
    }
    let segs = segments_of(cs.as_slice(), '/');
    let mut k: usize = 0;
    while k < segs.len()
        invariant
            k <= segs@.len(),
            segs@.len() == split_on(rel@, '/').len(),
            forall|i: int| 0 <= i < segs@.len() ==> (#[trigger] segs@[i])@ == split_on(rel@, '/')[i],
            forall|i: int| 0 <= i < k ==> split_on(rel@, '/')[i] != ".."@,
            !is_absolute(rel@),
        decreases segs@.len() - k,
    {
        if is_dot_dot(segs[k].as_slice()) {
            assert(split_on(rel@, '/')[k as int] == ".."@);
            assert(has_parent_segment(rel@));
            assert(!is_absolute(rel@));
            return Err(
                Error::InvalidArgument {
                    name: copy_str("path"),
                    detail: copy_str("parent-directory (`..`) segments are not allowed"),
                },
            );
        }
        k = k + 1;
    }
    Ok(())
}

/// The segments of a path that name something, in order: `Path` drops empty
/// segments and `.` ones.
pub open spec fn named_segments(path: Seq<char>) -> Seq<Seq<char>> {
    named_of(split_on(path, '/'))
}

/// The segments among `segs` that name something.
pub open spec fn named_of(segs: Seq<Seq<char>>) -> Seq<Seq<char>>
    decreases segs.len(),
{
    if segs.len() == 0 {
        Seq::empty()
    } else {
        let p = named_of(segs.drop_last());
        if segs.last().len() > 0 && segs.last() != "."@ {
            p.push(segs.last())
        } else {
            p
        }
    }
}

/// The final component's name, as `Path::file_name` gives it: `None` when the
/// path names nothing or ends in `..`.
pub open spec fn file_name(path: Seq<char>) -> Option<Seq<char>> {
    let segs = named_segments(path);
    if segs.len() == 0 || segs.last() == ".."@ {
        None
    } else {
        Some(segs.last())
    }
}

/// The index of the last `c` in `s`, if any.
pub open spec fn last_index_of(s: Seq<char>, c: char) -> Option<int>
    decreases s.len(),
{
    if s.len() == 0 {
        None
    } else if s.last() == c {
        Some(s.len() - 1)
    } else {
        last_index_of(s.drop_last(), c)
    }
}

/// The extension of a file name, as `Path::extension` gives it: what follows
/// the last `.`, unless there is none or it is the name's first character.
pub open spec fn name_extension(name: Seq<char>) -> Option<Seq<char>> {
    match last_index_of(name, '.') {
        Some(i) => if i == 0 {
            None
        } else {
            Some(name.skip(i + 1))
        },
        None => None,
    }
}

/// The extension of a path.
pub open spec fn path_extension(path: Seq<char>) -> Option<Seq<char>> {
    match file_name(path) {
        Some(n) => name_extension(n),
        None => None,
    }
}

/// The media type a file extension implies.
pub open spec fn media_for_extension(ext: Option<Seq<char>>) -> Seq<char> {
    match ext {
        Some(e) => if e == "txt"@ {
            "text/plain"@
        } else if e == "ttl"@ {
            "text/turtle"@
        } else if e == "nt"@ {
            "application/n-triples"@
        } else if e == "json"@ {
            "application/json"@
        } else if e == "jsonld"@ {
            "application/ld+json"@
        } else if e == "html"@ {
            "text/html"@
        } else {
            "application/octet-stream"@
        },
        None => "application/octet-stream"@,
    }
}

fn is_dot(seg: &[char]) -> (r: bool)
    ensures
        r == (seg@ == "."@),
{
    proof {
        reveal_strlit(".");
    }
    let r = seg.len() == 1 && seg[0] == '.';
    proof {
        if r {
            assert(seg@ =~= "."@);
        }
    }
    r
}

/// The file name of a path.
fn file_name_of(path: &str) -> (r: Option<String>)
    ensures
        match r {
            Some(n) => file_name(path@) == Some(n@),
            None => file_name(path@) is None,
        },
{
    let cs = chars_of(path);
    let segs = segments_of(cs.as_slice(), '/');
    let ghost all = split_on(path@, '/');
    let mut last: Option<usize> = None;
    let mut k: usize = 0;
    while k < segs.len()
        invariant
            k <= segs@.len(),
            all == split_on(path@, '/'),
            segs@.len() == all.len(),
            forall|i: int| 0 <= i < segs@.len() ==> (#[trigger] segs@[i])@ == all[i],
            match last {
                Some(j) => j < k && named_of(all.take(k as int)).len() > 0 && named_of(
                    all.take(k as int),
                ).last() == all[j as int],
                None => named_of(all.take(k as int)).len() == 0,
            },
        decreases segs@.len() - k,
    {
        proof {
            assert(all.take(k + 1).drop_last() =~= all.take(k as int));
            assert(all.take(k + 1).last() == all[k as int]);
        }
        if segs[k].len() > 0 && !is_dot(segs[k].as_slice()) {
            last = Some(k);
        }
        k = k + 1;
    }
    proof {
        assert(all.take(segs@.len() as int) =~= all);
    }
    match last {
        Some(j) => {
            if is_dot_dot(segs[j].as_slice()) {
                None
            } else {
                Some(string_from(segs[j].as_slice()))
            }
        },
        None => None,
    }
}

/// The media type a path's extension implies, as the file endpoint labels
/// what it reads; `application/octet-stream` when none is known.
pub fn media_type_for(path: &str) -> (r: &'static str)
    ensures
        r@ == media_for_extension(path_extension(path@)),
{
    let name = match file_name_of(path) {
        Some(n) => n,
        None => {
            return "application/octet-stream";
        },
    };
    let cs = chars_of(name.as_str());
    let mut i: usize = cs.len();
    let mut dot: Option<usize> = None;
    assert(cs@.take(i as int) =~= cs@);
    while i > 0
        invariant
            i <= cs@.len(),
            cs@ == name@,
            dot is None ==> last_index_of(cs@, '.') == last_index_of(cs@.take(i as int), '.'),
            dot matches Some(j) ==> last_index_of(cs@, '.') == Some(j as int) && j < cs@.len(),
        decreases i,
    {
        if dot.is_none() {
            proof {
                assert(cs@.take(i as int).drop_last() =~= cs@.take(i - 1));
            }
            if cs[i - 1] == '.' {
                dot = Some(i - 1);
            }
        }
        i = i - 1;
    }
    proof {
        assert(cs@.take(0) =~= Seq::<char>::empty());
    }
    let ext = match dot {
        Some(j) => {
            if j == 0 {
                return "application/octet-stream";
            }
            crate::text::str_skip(name.as_str(), j + 1)
        },
        None => {
            return "application/octet-stream";
        },
    };
    if str_eq(ext.as_str(), "txt") {
        "text/plain"
    } else if str_eq(ext.as_str(), "ttl") {
        "text/turtle"
    } else if str_eq(ext.as_str(), "nt") {
        "application/n-triples"
    } else if str_eq(ext.as_str(), "json") {
        "application/json"
    } else if str_eq(ext.as_str(), "jsonld") {
        "application/ld+json"
    } else if str_eq(ext.as_str(), "html") {
        "text/html"
    } else {
        "application/octet-stream"
    }
}

/// What the file endpoint does for a verb.
#[derive(Clone, Copy, Debug, PartialEq, Eq, Structural)]
pub enum FileAction {
    /// Answer with the endpoint's own description.
    Describe,
    /// Read the file the request names.
    Read,
}

/// The message refusing a verb.
pub open spec fn verb_refusal(v: Verb) -> Seq<char> {
    "file endpoint does not support the "@ + crate::vocab::verb_label(v) + " verb"@
}

/// What the file endpoint does for `verb`: describe itself for `Meta`, read
/// for `Source`, and refuse every other verb.
pub fn file_action(verb: Verb) -> (r: Result<FileAction, Error>)
    ensures
        match verb {
            Verb::Meta => r == Ok::<FileAction, Error>(FileAction::Describe),
            Verb::Source => r == Ok::<FileAction, Error>(FileAction::Read),
            _ => r matches Err(Error::Endpoint(m)) && m@ == verb_refusal(verb),
        },
{
    match verb {
        Verb::Meta => Ok(FileAction::Describe),
        Verb::Source => Ok(FileAction::Read),
        _ => {
            let m = concat_str("file endpoint does not support the ", verb_name(verb));
            Err(Error::Endpoint(concat_str(m.as_str(), " verb")))
        },
    }
}

/// The relative path a read request names: the `path` binding, refused when
/// it is missing, absolute or climbs out with `..`.
pub fn read_target(bindings: &crate::grammar::Bindings) -> (r: Result<String, Error>)
    ensures
        match crate::sorted::lookup(bindings@, "path"@) {
            None => r matches Err(Error::MissingArgument(n)) && n@ == "path"@,
            Some(p) => match r {
                Ok(t) => t@ == p && !is_absolute(p) && !has_parent_segment(p),
                Err(e) => e matches Error::InvalidArgument { name, detail } && name@ == "path"@ && (
                if is_absolute(p) {
                    detail@ == absolute_refusal()
                } else {
                    has_parent_segment(p) && detail@ == parent_refusal()
                }),
            },
        },
{
    match bindings.get("path") {
        None => Err(Error::MissingArgument(copy_str("path"))),
        Some(p) => match check_relative_path(p) {
            Ok(()) => Ok(copy_str(p)),
            Err(e) => Err(e),
        },
    }
}

/// The file endpoint's description.
pub open spec fn file_view() -> DescriptionView {
    DescriptionView {
        id: "file"@,
        title: "Capability-confined file endpoint"@,
        summary: "Reads a file resolved relative to the endpoint root; default-deny outside it."@,
        verbs: seq![Verb::Source, Verb::Meta],
        inputs: seq![
            ArgView {
                name: "path"@,
                summary: "Path relative to the endpoint root (no `..`, no absolute paths)."@,
                required: true,
                source: InputSource::Argument,
                class: None,
                default: None,
                one_of: Seq::empty(),
            },
        ],
        outputs: seq!["application/octet-stream"@],
        kind: KindView::Endpoint,
        requires: Seq::empty(),
        actions: Seq::empty(),
    }
}

/// The file endpoint's self-description.
pub fn file_description() -> (r: Description)
    ensures
        r@ == file_view(),
{
    let r = Description::new("file").title("Capability-confined file endpoint").summary(
        "Reads a file resolved relative to the endpoint root; default-deny outside it.",
    ).verb(Verb::Source).verb(Verb::Meta).input(
        crate::describe::ArgSpec::new("path").summary(
            "Path relative to the endpoint root (no `..`, no absolute paths).",
        ),
    ).output("application/octet-stream");
    assert(r@ =~= file_view());
    r
}

} // verus!
