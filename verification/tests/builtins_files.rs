use ikigai_core::builtins::{
    echo_answer, echo_description, reverse_lines, reverse_list_answer, reverse_list_description,
    to_upper_answer, to_upper_description, upper_cased,
};
use ikigai_core::files::{check_relative_path, file_action, file_description, media_type_for, read_target, FileAction};
use ikigai_core::verb::Verb;
use ikigai_core::{Bindings, Error, Expiry};

#[test]
fn to_upper_upper_cases() {
    assert_eq!(upper_cased("hello, wörld"), "HELLO, WÖRLD");
    let rep = to_upper_answer("abc");
    assert_eq!(rep.bytes, b"ABC");
    assert_eq!(rep.repr_type.canonical(), "text/plain;charset=utf-8");
    assert_eq!(rep.expiry, Expiry::Never);
    // Some characters map to several.
    assert_eq!(upper_cased("ß"), "SS");
}

#[test]
fn reverse_list_reverses_newline_separated_items() {
    assert_eq!(reverse_lines("a\nb\nc"), "c\nb\na");
    assert_eq!(reverse_lines("a\nb\n"), "\nb\na");
    assert_eq!(reverse_lines(""), "");
    assert_eq!(reverse_lines(&reverse_lines("x\ny\nz")), "x\ny\nz");
    assert_eq!(reverse_list_answer("1\n2").bytes, b"2\n1");
}

#[test]
fn echo_returns_the_message_binding() {
    let mut b = Bindings::new();
    b.insert("message", "hi there");
    assert_eq!(echo_answer(&b).unwrap().bytes, b"hi there");
    match echo_answer(&Bindings::new()) {
        Err(Error::MissingArgument(n)) => assert_eq!(n, "message"),
        other => panic!("unexpected {other:?}"),
    }
}

#[test]
fn builtins_describe_themselves_by_their_names() {
    assert_eq!(to_upper_description().id, "toUpper");
    assert_eq!(reverse_list_description().id, "reverseList");
    let echo = echo_description();
    assert_eq!(echo.id, "echo");
    assert_eq!(echo.inputs[0].source, ikigai_core::InputSource::Binding);
    assert_eq!(echo.verbs, vec![Verb::Source, Verb::Meta]);
    assert_eq!(echo.outputs, vec!["text/plain;charset=utf-8".to_string()]);
}

#[test]
fn rejects_parent_dir_traversal() {
    let err = check_relative_path("../escape").unwrap_err();
    assert!(matches!(err, Error::InvalidArgument { .. }));
    assert!(check_relative_path("a/../b").is_err());
    assert!(check_relative_path("a/..b").is_ok());
}

#[test]
fn rejects_absolute_path() {
    match check_relative_path("/etc/hosts") {
        Err(Error::InvalidArgument { name, detail }) => {
            assert_eq!(name, "path");
            assert_eq!(detail, "absolute paths are not allowed");
        }
        other => panic!("unexpected {other:?}"),
    }
    assert!(check_relative_path("hello.txt").is_ok());
    assert!(check_relative_path("./a/b.txt").is_ok());
}

#[test]
fn missing_path_binding_is_an_error() {
    assert!(matches!(read_target(&Bindings::new()).unwrap_err(), Error::MissingArgument(_)));
    let mut b = Bindings::new();
    b.insert("path", "notes/a.txt");
    assert_eq!(read_target(&b).unwrap(), "notes/a.txt");
}

#[test]
fn the_file_endpoint_serves_source_and_meta_only() {
    assert_eq!(file_action(Verb::Source).unwrap(), FileAction::Read);
    assert_eq!(file_action(Verb::Meta).unwrap(), FileAction::Describe);
    match file_action(Verb::Sink) {
        Err(Error::Endpoint(m)) => assert_eq!(m, "file endpoint does not support the Sink verb"),
        other => panic!("unexpected {other:?}"),
    }
    assert_eq!(file_description().id, "file");
}

#[test]
fn the_media_type_follows_the_extension() {
    for (path, media) in [
        ("hello.txt", "text/plain"),
        ("a/b.ttl", "text/turtle"),
        ("x.nt", "application/n-triples"),
        ("x.json", "application/json"),
        ("x.jsonld", "application/ld+json"),
        ("index.html", "text/html"),
        ("archive.tar.gz", "application/octet-stream"),
        (".bashrc", "application/octet-stream"),
        ("noext", "application/octet-stream"),
        ("dir/.txt", "application/octet-stream"),
        ("a/b.txt/", "text/plain"),
        ("a/..", "application/octet-stream"),
    ] {
        assert_eq!(media_type_for(path), media, "{path}");
    }
}

// The extension is what `std::path::Path` reports.
#[test]
fn the_extension_agrees_with_std_path() {
    for path in ["a.txt", "a/b.json", ".txt", "a/.html", "x.", "a/b.ttl/", "a/./b.nt", "..", "./", "c.d/e"] {
        let std_ext = std::path::Path::new(path).extension().and_then(|e| e.to_str());
        let media = match std_ext {
            Some("txt") => "text/plain",
            Some("ttl") => "text/turtle",
            Some("nt") => "application/n-triples",
            Some("json") => "application/json",
            Some("jsonld") => "application/ld+json",
            Some("html") => "text/html",
            _ => "application/octet-stream",
        };
        assert_eq!(media_type_for(path), media, "{path}");
    }
}
